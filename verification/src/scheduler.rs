//! Which waiting request runs next.
//!
//! Requests of a tenant are charged to its runtime. Runtimes and weights are the
//! bits of double-precision numbers; the function that charges a runtime is handed
//! in by the caller. A weight may be any number, so a runtime may become negative,
//! or no number at all.
//! Times are nanoseconds on one monotonic clock.

use crate::protocol::{Descriptor, Request};
use crate::table::{without, Table};
use vstd::multiset::Multiset;
use vstd::prelude::*;

verus! {

/// The weight of a tenant that has none of its own: the bits of one.
pub const UNIT_WEIGHT: u64 = 0x3ff0_0000_0000_0000;

/// The bit that makes a number negative.
pub const SIGN_BIT: u64 = 0x8000_0000_0000_0000;

/// The bits of infinity. Those above stand for no number.
pub const INFINITY: u64 = 0x7ff0_0000_0000_0000;

/// Nanoseconds in a millisecond.
pub const MILLISECOND: u64 = 1_000_000;

/// The rows of the first `count` candidates.
pub open spec fn candidate_rows(candidates: Seq<Descriptor>, count: int) -> int
    decreases count,
{
    if count <= 0 {
        0
    } else {
        candidate_rows(candidates, count - 1) + candidates[count - 1].rows
    }
}

/// A number that fits in 64 bits, or the largest such number.
pub open spec fn capped(value: int) -> u64 {
    if value > u64::MAX {
        u64::MAX
    } else {
        value as u64
    }
}

/// What a request costs: the pairs of a query row and a document row.
pub fn request_cost(request: &Request) -> (cost: u64)
    ensures
        cost == capped(
            candidate_rows(request.candidates@, request.candidates@.len() as int)
                * request.query_rows,
        ),
{
    let mut rows: u64 = 0;
    let mut i: usize = 0;
    while i < request.candidates.len()
        invariant
            i <= request.candidates@.len(),
            candidate_rows(request.candidates@, i as int) >= 0,
            rows == capped(candidate_rows(request.candidates@, i as int)),
        decreases request.candidates@.len() - i,
    {
        rows = rows.saturating_add(request.candidates[i].rows as u64);
        i += 1;
    }
    let ghost sum = candidate_rows(request.candidates@, request.candidates@.len() as int);
    let ghost width = request.query_rows as int;
    proof {
        if sum > u64::MAX {
            if width > 0 {
                assert(sum * width > u64::MAX) by (nonlinear_arith)
                    requires
                        sum > u64::MAX,
                        width > 0,
                ;
                assert(rows * width >= u64::MAX) by (nonlinear_arith)
                    requires
                        rows == u64::MAX,
                        width > 0,
                ;
            } else {
                assert(sum * width == 0 && rows * width == 0) by (nonlinear_arith)
                    requires
                        width == 0,
                ;
            }
        }
        assert(0 <= sum * width) by (nonlinear_arith)
            requires
                0 <= sum,
                0 <= width,
        ;
    }
    match rows.checked_mul(request.query_rows as u64) {
        Some(cost) => cost,
        None => 0xffff_ffff_ffff_ffff,
    }
}

#[derive(Clone, Copy, Debug, PartialEq, Eq, Structural)]
pub enum SchedulerPolicy {
    Fair,
    Priority,
    FairPriority,
}

/// The policy of a name.
pub open spec fn policy_of(value: Seq<char>) -> Option<SchedulerPolicy> {
    if value == "fair"@ {
        Some(SchedulerPolicy::Fair)
    } else if value == "priority"@ {
        Some(SchedulerPolicy::Priority)
    } else if value == "fair-priority"@ {
        Some(SchedulerPolicy::FairPriority)
    } else {
        None
    }
}

impl SchedulerPolicy {
    pub fn parse(value: &str) -> (result: Result<SchedulerPolicy, String>)
        ensures
            match policy_of(value@) {
                Some(policy) => result == Ok::<SchedulerPolicy, String>(policy),
                None => result is Err && result->Err_0@
                    == "scheduler policy must be fair, priority, or fair-priority"@,
            },
    {
        let value: String = value.to_owned();
        if value == "fair".to_owned() {
            Ok(SchedulerPolicy::Fair)
        } else if value == "priority".to_owned() {
            Ok(SchedulerPolicy::Priority)
        } else if value == "fair-priority".to_owned() {
            Ok(SchedulerPolicy::FairPriority)
        } else {
            Err("scheduler policy must be fair, priority, or fair-priority".to_owned())
        }
    }
}

/// A waiting request.
pub struct Scheduled<T> {
    pub tenant: String,
    pub priority: i32,
    pub cost: u64,
    pub enqueued_at: u64,
    pub deadline: u64,
    pub payload: T,
    pub sequence: u64,
}

impl<T> Scheduled<T> {
    /// A request that costs at least one unit of service.
    pub fn new(
        tenant: String,
        priority: i32,
        cost: u64,
        enqueued_at: u64,
        deadline: u64,
        payload: T,
    ) -> (item: Self)
        ensures
            item == (Scheduled {
                tenant,
                priority,
                cost: if cost == 0 {
                    1
                } else {
                    cost
                },
                enqueued_at,
                deadline,
                payload,
                sequence: 0,
            }),
    {
        Scheduled {
            tenant,
            priority,
            cost: if cost == 0 {
                1
            } else {
                cost
            },
            enqueued_at,
            deadline,
            payload,
            sequence: 0,
        }
    }
}

/// The state of a queue.
pub struct QueueView<T> {
    pub policy: SchedulerPolicy,
    pub aging: u64,
    pub priority_band: i32,
    pub pending: Seq<Scheduled<T>>,
    pub runtimes: Map<Seq<char>, u64>,
    pub weights: Map<Seq<char>, u64>,
    pub next_sequence: u64,
}

/// The place of a number among all numbers; both zeros have one place.
pub open spec fn place(bits: u64) -> int {
    if bits >= SIGN_BIT {
        SIGN_BIT - bits
    } else {
        bits as int
    }
}

/// Whether bits stand for no number.
pub open spec fn is_nan(bits: u64) -> bool {
    place(bits) > INFINITY || place(bits) < -INFINITY
}

/// Whether a number is below another.
pub open spec fn below(left: u64, right: u64) -> bool {
    !is_nan(left) && !is_nan(right) && place(left) < place(right)
}

/// Whether two numbers are equal.
pub open spec fn level(left: u64, right: u64) -> bool {
    !is_nan(left) && !is_nan(right) && place(left) == place(right)
}

/// The lower of two numbers. What is no number gives way.
pub open spec fn lower_of(left: u64, right: u64) -> u64 {
    if is_nan(left) || below(right, left) {
        right
    } else {
        left
    }
}

/// The higher of two numbers. What is no number gives way.
pub open spec fn higher_of(left: u64, right: u64) -> u64 {
    if is_nan(left) || below(left, right) {
        right
    } else {
        left
    }
}

fn place_of(bits: u64) -> (result: i64)
    ensures
        result == place(bits),
{
    if bits >= SIGN_BIT {
        0 - ((bits - SIGN_BIT) as i64)
    } else {
        bits as i64
    }
}

fn stands_for_none(bits: u64) -> (result: bool)
    ensures
        result == is_nan(bits),
{
    let place: i64 = place_of(bits);
    place > INFINITY as i64 || place < 0 - INFINITY as i64
}

fn is_below(left: u64, right: u64) -> (result: bool)
    ensures
        result == below(left, right),
{
    !stands_for_none(left) && !stands_for_none(right) && place_of(left) < place_of(right)
}

fn is_level(left: u64, right: u64) -> (result: bool)
    ensures
        result == level(left, right),
{
    !stands_for_none(left) && !stands_for_none(right) && place_of(left) == place_of(right)
}

/// The runtime of a tenant, zero where it has none.
pub open spec fn runtime_of(runtimes: Map<Seq<char>, u64>, tenant: Seq<char>) -> u64 {
    if runtimes.contains_key(tenant) {
        runtimes[tenant]
    } else {
        0
    }
}

/// The lower of the two numbers that are there.
pub open spec fn lower(left: Option<u64>, right: Option<u64>) -> Option<u64> {
    match (left, right) {
        (Some(left), Some(right)) => Some(lower_of(left, right)),
        (Some(left), None) => Some(left),
        (None, right) => right,
    }
}

/// The lowest runtime of the tenants of the first `count` requests.
pub open spec fn lowest_runtime<T>(
    pending: Seq<Scheduled<T>>,
    runtimes: Map<Seq<char>, u64>,
    count: int,
) -> Option<u64>
    decreases count,
{
    if count <= 0 {
        None
    } else {
        let tenant = pending[count - 1].tenant@;
        lower(
            lowest_runtime(pending, runtimes, count - 1),
            if runtimes.contains_key(tenant) {
                Some(runtimes[tenant])
            } else {
                None
            },
        )
    }
}

/// The priority of a request at a time: it rises by one for each aging period
/// that the request has waited, two hundred at most, and not above one hundred.
pub open spec fn effective_priority<T>(item: Scheduled<T>, aging: u64, now: u64) -> int {
    if aging == 0 {
        item.priority as int
    } else {
        let waited = if now > item.enqueued_at {
            (now - item.enqueued_at) / MILLISECOND as int
        } else {
            0
        };
        let period = if aging / MILLISECOND == 0 {
            1
        } else {
            (aging / MILLISECOND) as int
        };
        let steps = if waited / period > 200 {
            200
        } else {
            waited / period
        };
        if item.priority + steps > 100 {
            100
        } else {
            item.priority + steps
        }
    }
}

/// The highest effective priority of the first `count` requests.
pub open spec fn highest_priority<T>(
    pending: Seq<Scheduled<T>>,
    aging: u64,
    now: u64,
    count: int,
) -> int
    decreases count,
{
    if count <= 1 {
        effective_priority(pending[0], aging, now)
    } else {
        let before = highest_priority(pending, aging, now, count - 1);
        let last = effective_priority(pending[count - 1], aging, now);
        if last > before {
            last
        } else {
            before
        }
    }
}

/// What is left of the requests from `index` on once those whose deadline has come
/// have left, one after the other; the last moves to the place of one that leaves.
pub open spec fn unexpired<T>(pending: Seq<Scheduled<T>>, index: int, now: u64) -> Seq<Scheduled<T>>
    decreases pending.len() - index,
{
    if index < 0 || index >= pending.len() {
        pending
    } else if pending[index].deadline <= now {
        unexpired(without(pending, index), index, now)
    } else {
        unexpired(pending, index + 1, now)
    }
}

impl<T> QueueView<T> {
    pub open spec fn effective(self, item: Scheduled<T>, now: u64) -> int {
        effective_priority(item, self.aging, now)
    }

    /// The least effective priority that is served by fairness alone.
    pub open spec fn band_floor(self, now: u64) -> int {
        highest_priority(self.pending, self.aging, now, self.pending.len() as int)
            - self.priority_band
    }

    /// Whether a request is urgent or early enough to go before another one,
    /// fairness aside.
    pub open spec fn more_urgent(self, left: Scheduled<T>, right: Scheduled<T>, now: u64) -> bool {
        self.effective(left, now) > self.effective(right, now) || (self.effective(left, now)
            == self.effective(right, now) && left.sequence < right.sequence)
    }

    /// Whether a request goes before another one.
    pub open spec fn ahead(self, left: Scheduled<T>, right: Scheduled<T>, now: u64) -> bool {
        let left_runtime = runtime_of(self.runtimes, left.tenant@);
        let right_runtime = runtime_of(self.runtimes, right.tenant@);
        match self.policy {
            SchedulerPolicy::Fair => below(left_runtime, right_runtime) || (level(
                left_runtime,
                right_runtime,
            ) && left.sequence < right.sequence),
            SchedulerPolicy::Priority => self.more_urgent(left, right, now),
            SchedulerPolicy::FairPriority => {
                let left_eligible = self.effective(left, now) >= self.band_floor(now);
                let right_eligible = self.effective(right, now) >= self.band_floor(now);
                if left_eligible != right_eligible {
                    left_eligible
                } else if !left_eligible || left.tenant@ == right.tenant@ {
                    self.more_urgent(left, right, now)
                } else {
                    below(left_runtime, right_runtime) || (level(left_runtime, right_runtime)
                        && self.more_urgent(left, right, now))
                }
            },
        }
    }

    /// The request that runs next of the first `count`: each is held against the
    /// best of those before it.
    pub open spec fn chosen(self, now: u64, count: int) -> int
        decreases count,
    {
        if count <= 1 {
            0
        } else {
            let best = self.chosen(now, count - 1);
            if self.ahead(self.pending[count - 1], self.pending[best], now) {
                count - 1
            } else {
                best
            }
        }
    }

    /// The request that runs next.
    pub open spec fn next(self, now: u64) -> int {
        self.chosen(now, self.pending.len() as int)
    }

    /// Whether the runtimes of all tenants that wait are numbers.
    pub open spec fn has_numbers(self) -> bool {
        forall|i: int|
            0 <= i < self.pending.len() ==> !is_nan(
                runtime_of(self.runtimes, (#[trigger] self.pending[i]).tenant@),
            )
    }

    /// Whether no request goes before request `index`.
    pub open spec fn is_next(self, index: int, now: u64) -> bool {
        &&& 0 <= index < self.pending.len()
        &&& forall|j: int|
            0 <= j < self.pending.len() ==> !self.ahead(
                #[trigger] self.pending[j],
                self.pending[index],
                now,
            )
    }

    /// Request `index` leaves the queue, and its tenant has the given runtime.
    pub open spec fn serves(
        self,
        index: int,
        runtime: u64,
        item: Scheduled<T>,
        after: QueueView<T>,
    ) -> bool {
        &&& item == self.pending[index]
        &&& after == (QueueView {
            pending: without(self.pending, index),
            runtimes: self.runtimes.insert(item.tenant@, runtime),
            ..self
        })
    }

    /// The runtimes that a new request finds: a new busy period starts afresh.
    pub open spec fn standing(self) -> Map<Seq<char>, u64> {
        if self.pending.len() == 0 {
            Map::empty()
        } else {
            self.runtimes
        }
    }

    /// Whether a tenant has a request waiting.
    pub open spec fn is_active(self, tenant: Seq<char>) -> bool {
        exists|i: int|
            0 <= i < self.pending.len() && (#[trigger] self.pending[i]).tenant@ == tenant
    }

    /// The runtime that a tenant joins with: not below the lowest of those that
    /// wait, unless it waits itself.
    pub open spec fn joining_runtime(self, tenant: Seq<char>) -> u64 {
        let standing = self.standing();
        let baseline = match lowest_runtime(self.pending, standing, self.pending.len() as int) {
            Some(runtime) => runtime,
            None => 0,
        };
        if !standing.contains_key(tenant) {
            baseline
        } else if !self.is_active(tenant) {
            higher_of(standing[tenant], baseline)
        } else {
            standing[tenant]
        }
    }

    /// The weight of a tenant.
    pub open spec fn weight_of(self, tenant: Seq<char>) -> u64 {
        if self.weights.contains_key(tenant) {
            self.weights[tenant]
        } else {
            UNIT_WEIGHT
        }
    }
}

/// Whether the function may charge the tenant of a request with a runtime.
pub open spec fn charges<T, C: Fn(u64, u64, u64) -> u64>(
    charge: C,
    queue: QueueView<T>,
    item: Scheduled<T>,
    runtime: u64,
) -> bool {
    call_ensures(
        charge,
        (
            runtime_of(queue.runtimes, item.tenant@),
            item.cost,
            queue.weight_of(item.tenant@),
        ),
        runtime,
    )
}

/// Requests that have not started, under one of three policies. The fair
/// priority policy takes the band of the highest aged priorities and serves the
/// tenant with the least service in it; this keeps urgency and stops noisy
/// neighbours of equal priority from taking the device for themselves.
pub struct RequestQueue<T> {
    policy: SchedulerPolicy,
    aging: u64,
    priority_band: i32,
    pending: Vec<Scheduled<T>>,
    virtual_runtime: Table<u64>,
    weights: Table<u64>,
    next_sequence: u64,
}

impl<T> View for RequestQueue<T> {
    type V = QueueView<T>;

    closed spec fn view(&self) -> QueueView<T> {
        QueueView {
            policy: self.policy,
            aging: self.aging,
            priority_band: self.priority_band,
            pending: self.pending@,
            runtimes: self.virtual_runtime@,
            weights: self.weights@,
            next_sequence: self.next_sequence,
        }
    }
}

impl<T> RequestQueue<T> {
    pub closed spec fn wf(&self) -> bool {
        &&& self.virtual_runtime.wf()
        &&& self.weights.wf()
        &&& self.priority_band >= 0
    }

    pub fn new(policy: SchedulerPolicy, aging: u64, priority_band: i32, weights: Table<u64>) -> (queue:
        Self)
        requires
            weights.wf(),
        ensures
            queue.wf(),
            queue@ == (QueueView::<T> {
                policy,
                aging,
                priority_band: if priority_band < 0 {
                    0
                } else {
                    priority_band
                },
                pending: seq![],
                runtimes: Map::empty(),
                weights: weights@,
                next_sequence: 0,
            }),
    {
        let queue = RequestQueue {
            policy,
            aging,
            priority_band: if priority_band < 0 {
                0
            } else {
                priority_band
            },
            pending: Vec::new(),
            virtual_runtime: Table::new(),
            weights,
            next_sequence: 0,
        };
        assert(queue@.pending =~= seq![]);
        queue
    }

    pub fn len(&self) -> (count: usize)
        ensures
            count == self@.pending.len(),
    {
        self.pending.len()
    }

    fn runtime(&self, tenant: &str) -> (runtime: u64)
        requires
            self.wf(),
        ensures
            runtime == runtime_of(self@.runtimes, tenant@),
    {
        match self.virtual_runtime.get(tenant) {
            Some(runtime) => *runtime,
            None => 0,
        }
    }

    /// Puts a request at the end of the queue.
    pub fn push(&mut self, item: Scheduled<T>)
        requires
            old(self).wf(),
        ensures
            final(self).wf(),
            final(self)@ == (QueueView {
                pending: old(self)@.pending.push(
                    Scheduled { sequence: old(self)@.next_sequence, ..item },
                ),
                runtimes: old(self)@.standing().insert(
                    item.tenant@,
                    old(self)@.joining_runtime(item.tenant@),
                ),
                next_sequence: if old(self)@.next_sequence == u64::MAX {
                    0
                } else {
                    (old(self)@.next_sequence + 1) as u64
                },
                ..old(self)@
            }),
    {
        let ghost before = self@;
        let mut item: Scheduled<T> = item;
        item.sequence = self.next_sequence;
        self.next_sequence = if self.next_sequence == u64::MAX {
            0
        } else {
            self.next_sequence + 1
        };
        if self.pending.is_empty() {
            self.virtual_runtime = Table::new();
        }
        let mut active: bool = false;
        let mut lowest: Option<u64> = None;
        let mut i: usize = 0;
        while i < self.pending.len()
            invariant
                self.virtual_runtime.wf(),
                i <= self.pending@.len(),
                self.pending@ == before.pending,
                self.virtual_runtime@ == before.standing(),
                active == exists|j: int|
                    0 <= j < i && (#[trigger] before.pending[j]).tenant@ == item.tenant@,
                lowest == lowest_runtime(before.pending, before.standing(), i as int),
            decreases self.pending@.len() - i,
        {
            let waiting: &Scheduled<T> = &self.pending[i];
            if waiting.tenant == item.tenant {
                assert(before.pending[i as int].tenant@ == item.tenant@);
                active = true;
            }
            let runtime: Option<u64> = match self.virtual_runtime.get(waiting.tenant.as_str()) {
                Some(runtime) => Some(*runtime),
                None => None,
            };
            lowest = match (lowest, runtime) {
                (Some(left), Some(right)) => Some(
                    if stands_for_none(left) || is_below(right, left) {
                        right
                    } else {
                        left
                    },
                ),
                (Some(left), None) => Some(left),
                (None, right) => right,
            };
            i += 1;
        }
        let baseline: u64 = match lowest {
            Some(runtime) => runtime,
            None => 0,
        };
        let runtime: u64 = match self.virtual_runtime.get(item.tenant.as_str()) {
            None => baseline,
            Some(runtime) => if !active && (stands_for_none(*runtime) || is_below(
                *runtime,
                baseline,
            )) {
                baseline
            } else {
                *runtime
            },
        };
        assert(active == before.is_active(item.tenant@));
        self.virtual_runtime.insert(item.tenant.clone(), runtime);
        self.pending.push(item);
    }

    /// Takes out the requests whose deadline has come, the oldest first. They
    /// are not charged to their tenants.
    pub fn drain_expired(&mut self, now: u64) -> (expired: Vec<Scheduled<T>>)
        requires
            old(self).wf(),
        ensures
            final(self).wf(),
            final(self)@ == (QueueView {
                pending: unexpired(old(self)@.pending, 0, now),
                ..old(self)@
            }),
            forall|i: int| 0 <= i < expired@.len() ==> (#[trigger] expired@[i]).deadline <= now,
            forall|i: int|
                0 <= i < final(self)@.pending.len() ==> (#[trigger] final(self)@.pending[i]).deadline
                    > now,
            forall|i: int, j: int|
                0 <= i < j < expired@.len() ==> (#[trigger] expired@[i]).sequence <= (
                #[trigger] expired@[j]).sequence,
            final(self)@.pending.to_multiset().add(expired@.to_multiset())
                == old(self)@.pending.to_multiset(),
    {
        let mut expired: Vec<Scheduled<T>> = Vec::new();
        let ghost all = self.pending@.to_multiset();
        let mut index: usize = 0;
        proof {
            expired@.to_multiset_ensures();
            assert(expired@.to_multiset() =~= Multiset::empty());
            assert(self.pending@.to_multiset().add(expired@.to_multiset()) =~= all);
        }
        while index < self.pending.len()
            invariant
                self.wf(),
                index <= self.pending@.len(),
                self@ == (QueueView { pending: self.pending@, ..old(self)@ }),
                unexpired(self.pending@, index as int, now) == unexpired(old(self)@.pending, 0, now),
                forall|i: int| 0 <= i < index ==> (#[trigger] self.pending@[i]).deadline > now,
                forall|i: int| 0 <= i < expired@.len() ==> (#[trigger] expired@[i]).deadline <= now,
                forall|i: int, j: int|
                    0 <= i < j < expired@.len() ==> (#[trigger] expired@[i]).sequence <= (
                    #[trigger] expired@[j]).sequence,
                self.pending@.to_multiset().add(expired@.to_multiset()) == all,
                all == old(self)@.pending.to_multiset(),
            decreases self.pending@.len() - index,
        {
            if self.pending[index].deadline <= now {
                let ghost before = self.pending@;
                let ghost drained = expired@;
                let item: Scheduled<T> = self.pending.swap_remove(index);
                let ghost taken = item;
                insert_in_order(&mut expired, item);
                proof {
                    lemma_without_multiset(before, index as int);
                    assert(self.pending@ == without(before, index as int));
                    assert(self.pending@.to_multiset().add(expired@.to_multiset()) =~= before.to_multiset().add(
                        drained.to_multiset(),
                    ));
                    assert forall|i: int| 0 <= i < expired@.len() implies (
                    #[trigger] expired@[i]).deadline <= now by {
                        expired@.to_multiset_ensures();
                        drained.to_multiset_ensures();
                        assert(expired@.to_multiset().contains(expired@[i]));
                        if expired@[i] != taken {
                            assert(drained.to_multiset().contains(expired@[i]));
                            let k = drained.index_of(expired@[i]);
                            assert(drained.contains(expired@[i]));
                            assert(drained[k].deadline <= now);
                        }
                    }
                }
            } else {
                index += 1;
            }
        }
        expired
    }
}

impl<T> RequestQueue<T> {
    /// The priority of a request at a time.
    fn effective_priority(&self, item: &Scheduled<T>, now: u64) -> (priority: i32)
        ensures
            priority == self@.effective(*item, now),
    {
        if self.aging == 0 {
            return item.priority;
        }
        let waited: u64 = now.saturating_sub(item.enqueued_at) / MILLISECOND;
        let period: u64 = if self.aging / MILLISECOND == 0 {
            1
        } else {
            self.aging / MILLISECOND
        };
        let steps: u64 = if waited / period > 200 {
            200
        } else {
            waited / period
        };
        let raised: i64 = item.priority as i64 + steps as i64;
        if raised > 100 {
            100
        } else {
            raised as i32
        }
    }

    /// Whether a request goes before another one.
    fn better(
        &self,
        candidate: usize,
        current: usize,
        effective: &Vec<i32>,
        highest: i32,
        Ghost(now): Ghost<u64>,
    ) -> (result: bool)
        requires
            self.wf(),
            candidate < self@.pending.len(),
            current < self@.pending.len(),
            effective@.len() == self@.pending.len(),
            forall|i: int|
                0 <= i < effective@.len() ==> #[trigger] effective@[i] == self@.effective(
                    self@.pending[i],
                    now,
                ),
            highest == highest_priority(
                self@.pending,
                self@.aging,
                now,
                self@.pending.len() as int,
            ),
        ensures
            result == self@.ahead(
                self@.pending[candidate as int],
                self@.pending[current as int],
                now,
            ),
    {
        let left: &Scheduled<T> = &self.pending[candidate];
        let right: &Scheduled<T> = &self.pending[current];
        let left_runtime: u64 = self.runtime(left.tenant.as_str());
        let right_runtime: u64 = self.runtime(right.tenant.as_str());
        let urgent: bool = effective[candidate] > effective[current] || (effective[candidate]
            == effective[current] && left.sequence < right.sequence);
        match self.policy {
            SchedulerPolicy::Fair => is_below(left_runtime, right_runtime) || (is_level(
                left_runtime,
                right_runtime,
            ) && left.sequence < right.sequence),
            SchedulerPolicy::Priority => urgent,
            SchedulerPolicy::FairPriority => {
                let floor: i64 = highest as i64 - self.priority_band as i64;
                let left_eligible: bool = effective[candidate] as i64 >= floor;
                let right_eligible: bool = effective[current] as i64 >= floor;
                if left_eligible != right_eligible {
                    left_eligible
                } else if !left_eligible || left.tenant == right.tenant {
                    urgent
                } else {
                    is_below(left_runtime, right_runtime) || (is_level(left_runtime, right_runtime)
                        && urgent)
                }
            },
        }
    }

    /// Takes out the request that runs next and charges its tenant.
    pub fn pop<C: Fn(u64, u64, u64) -> u64>(&mut self, now: u64, charge: &C) -> (result: Option<
        Scheduled<T>,
    >)
        requires
            old(self).wf(),
            forall|runtime: u64, cost: u64, weight: u64|
                call_requires(*charge, (runtime, cost, weight)),
        ensures
            final(self).wf(),
            result is None <==> old(self)@.pending.len() == 0,
            result is None ==> final(self)@ == old(self)@,
            result is Some ==> final(self)@.pending.to_multiset().insert(result->0)
                == old(self)@.pending.to_multiset(),
            result is Some ==> charges(
                *charge,
                old(self)@,
                result->0,
                final(self)@.runtimes[result->0.tenant@],
            ),
            result is Some ==> old(self)@.serves(
                old(self)@.next(now),
                final(self)@.runtimes[result->0.tenant@],
                result->0,
                final(self)@,
            ),
    {
        if self.pending.is_empty() {
            return None;
        }
        let ghost before = self@;
        let mut effective: Vec<i32> = Vec::new();
        let mut highest: i32 = self.effective_priority(&self.pending[0], now);
        let mut i: usize = 0;
        while i < self.pending.len()
            invariant
                self@ == before,
                before.pending.len() > 0,
                i <= before.pending.len(),
                self.pending@ == before.pending,
                effective@.len() == i,
                forall|j: int|
                    0 <= j < i ==> #[trigger] effective@[j] == before.effective(before.pending[j], now),
                highest == highest_priority(before.pending, before.aging, now, i as int),
            decreases before.pending.len() - i,
        {
            let priority: i32 = self.effective_priority(&self.pending[i], now);
            if priority > highest {
                highest = priority;
            }
            effective.push(priority);
            i += 1;
        }
        let mut best: usize = 0;
        let mut candidate: usize = 1;
        while candidate < self.pending.len()
            invariant
                self.wf(),
                self@ == before,
                self.pending@ == before.pending,
                1 <= candidate <= before.pending.len(),
                best < candidate,
                effective@.len() == before.pending.len(),
                forall|j: int|
                    0 <= j < effective@.len() ==> #[trigger] effective@[j] == before.effective(
                        before.pending[j],
                        now,
                    ),
                highest == highest_priority(
                    before.pending,
                    before.aging,
                    now,
                    before.pending.len() as int,
                ),
                best == before.chosen(now, candidate as int),
            decreases before.pending.len() - candidate,
        {
            if self.better(candidate, best, &effective, highest, Ghost(now)) {
                best = candidate;
            }
            candidate += 1;
        }
        let item: Scheduled<T> = self.pending.swap_remove(best);
        proof {
            lemma_without_multiset(before.pending, best as int);
            assert(self.pending@ == without(before.pending, best as int));
        }
        let weight: u64 = match self.weights.get(item.tenant.as_str()) {
            Some(weight) => *weight,
            None => UNIT_WEIGHT,
        };
        let runtime: u64 = self.runtime(item.tenant.as_str());
        let charged: u64 = charge(runtime, item.cost, weight);
        self.virtual_runtime.insert(item.tenant.clone(), charged);
        proof {
            assert(charges(*charge, before, item, charged));
            assert(before.serves(best as int, charged, item, self@));
            assert(self@.pending.to_multiset().insert(item) == before.pending.to_multiset());
        }
        Some(item)
    }
}

/// The first of the best is a request, and none of the others goes before it.
proof fn lemma_chosen<T>(queue: QueueView<T>, now: u64, count: int)
    requires
        1 <= count <= queue.pending.len(),
        queue.policy == SchedulerPolicy::Priority || queue.has_numbers(),
    ensures
        0 <= queue.chosen(now, count) < count,
        forall|j: int|
            0 <= j < count ==> !queue.ahead(
                #[trigger] queue.pending[j],
                queue.pending[queue.chosen(now, count)],
                now,
            ),
    decreases count,
{
    if count > 1 {
        lemma_chosen(queue, now, count - 1);
        let before = queue.pending[queue.chosen(now, count - 1)];
        let best = queue.pending[queue.chosen(now, count)];
        let last = queue.pending[count - 1];
        assert forall|j: int| 0 <= j < count implies !queue.ahead(
            #[trigger] queue.pending[j],
            best,
            now,
        ) by {
            if j < count - 1 {
                assert(!queue.ahead(queue.pending[j], before, now));
            }
        }
    }
}

/// Where the runtimes are numbers, no request goes before the one that runs next.
pub proof fn next_is_first<T>(queue: QueueView<T>, now: u64)
    requires
        queue.pending.len() > 0,
        queue.policy == SchedulerPolicy::Priority || queue.has_numbers(),
    ensures
        queue.is_next(queue.next(now), now),
{
    lemma_chosen(queue, now, queue.pending.len() as int);
}

/// Under the priority policy the next request has the highest effective
/// priority, and is the oldest of those.
pub proof fn priority_serves_the_most_urgent<T>(queue: QueueView<T>, other: int, now: u64)
    requires
        queue.policy == SchedulerPolicy::Priority,
        0 <= other < queue.pending.len(),
    ensures
        queue.effective(queue.pending[queue.next(now)], now) >= queue.effective(
            queue.pending[other],
            now,
        ),
        queue.effective(queue.pending[queue.next(now)], now) == queue.effective(
            queue.pending[other],
            now,
        ) ==> queue.pending[queue.next(now)].sequence <= queue.pending[other].sequence,
{
    next_is_first(queue, now);
    assert(!queue.ahead(queue.pending[other], queue.pending[queue.next(now)], now));
}

/// Under the fair policy the next request is of a tenant with the least runtime
/// of those that wait, and the oldest of its tenant.
pub proof fn fair_serves_the_least_served<T>(queue: QueueView<T>, other: int, now: u64)
    requires
        queue.policy == SchedulerPolicy::Fair,
        queue.has_numbers(),
        0 <= other < queue.pending.len(),
    ensures
        !below(
            runtime_of(queue.runtimes, queue.pending[other].tenant@),
            runtime_of(queue.runtimes, queue.pending[queue.next(now)].tenant@),
        ),
        queue.pending[queue.next(now)].tenant@ == queue.pending[other].tenant@
            ==> queue.pending[queue.next(now)].sequence <= queue.pending[other].sequence,
{
    next_is_first(queue, now);
    assert(!queue.ahead(queue.pending[other], queue.pending[queue.next(now)], now));
}

/// Under the fair priority policy the next request lies in the band of the
/// highest effective priorities, and its tenant has the least runtime of those
/// with a request in the band.
pub proof fn fair_priority_serves_the_band<T>(queue: QueueView<T>, other: int, now: u64)
    requires
        queue.policy == SchedulerPolicy::FairPriority,
        queue.priority_band >= 0,
        queue.has_numbers(),
        0 <= other < queue.pending.len(),
    ensures
        queue.effective(queue.pending[queue.next(now)], now) >= queue.band_floor(now),
        queue.effective(queue.pending[other], now) >= queue.band_floor(now) ==> !below(
            runtime_of(queue.runtimes, queue.pending[other].tenant@),
            runtime_of(queue.runtimes, queue.pending[queue.next(now)].tenant@),
        ),
{
    let index = queue.next(now);
    next_is_first(queue, now);
    let top = lemma_highest(queue.pending, queue.aging, now, queue.pending.len() as int);
    assert(!queue.ahead(queue.pending[top], queue.pending[index], now));
    assert(!queue.ahead(queue.pending[other], queue.pending[index], now));
}

/// Some request has the highest effective priority.
proof fn lemma_highest<T>(pending: Seq<Scheduled<T>>, aging: u64, now: u64, count: int) -> (top: int)
    requires
        1 <= count <= pending.len(),
    ensures
        0 <= top < count,
        effective_priority(pending[top], aging, now) == highest_priority(
            pending,
            aging,
            now,
            count,
        ),
    decreases count,
{
    if count == 1 {
        0
    } else {
        let before = lemma_highest(pending, aging, now, count - 1);
        if effective_priority(pending[count - 1], aging, now) > highest_priority(
            pending,
            aging,
            now,
            count - 1,
        ) {
            count - 1
        } else {
            before
        }
    }
}

/// Waiting never makes a request less urgent, and never more urgent than one
/// hundred unless it came so.
pub proof fn waiting_does_not_demote<T>(item: Scheduled<T>, aging: u64, now: u64, later: u64)
    requires
        now <= later,
        item.priority <= 100,
    ensures
        item.priority <= effective_priority(item, aging, now) <= effective_priority(
            item,
            aging,
            later,
        ) <= 100,
{
    if aging > 0 {
        let period = if aging / MILLISECOND == 0 {
            1
        } else {
            (aging / MILLISECOND) as int
        };
        let sooner = if now > item.enqueued_at {
            (now - item.enqueued_at) / MILLISECOND as int
        } else {
            0
        };
        let after = if later > item.enqueued_at {
            (later - item.enqueued_at) / MILLISECOND as int
        } else {
            0
        };
        vstd::arithmetic::div_mod::lemma_div_is_ordered(sooner, after, period);
        assert(sooner / period >= 0) by (nonlinear_arith)
            requires
                sooner >= 0,
                period >= 1,
        ;
    }
}

/// Puts a request into a list that is ordered by age, behind those of its age.
fn insert_in_order<T>(list: &mut Vec<Scheduled<T>>, item: Scheduled<T>)
    requires
        forall|i: int, j: int|
            0 <= i < j < old(list)@.len() ==> (#[trigger] old(list)@[i]).sequence <= (
            #[trigger] old(list)@[j]).sequence,
    ensures
        forall|i: int, j: int|
            0 <= i < j < final(list)@.len() ==> (#[trigger] final(list)@[i]).sequence <= (
            #[trigger] final(list)@[j]).sequence,
        final(list)@.to_multiset() == old(list)@.to_multiset().insert(item),
{
    let ghost before = list@;
    let mut place: usize = list.len();
    while place > 0 && list[place - 1].sequence > item.sequence
        invariant
            place <= list@.len(),
            list@ == before,
            forall|i: int|
                place <= i < before.len() ==> (#[trigger] before[i]).sequence > item.sequence,
        decreases place,
    {
        place -= 1;
    }
    list.insert(place, item);
    proof {
        before.to_multiset_ensures();
        assert(list@ == before.insert(place as int, item));
        lemma_insert_multiset(before, place as int, item);
        assert forall|i: int, j: int| 0 <= i < j < list@.len() implies (#[trigger] list@[i]).sequence <= (
        #[trigger] list@[j]).sequence by {
            let a = if i < place {
                i
            } else {
                i - 1
            };
            let b = if j < place {
                j
            } else {
                j - 1
            };
            if i == place {
                assert(before[b].sequence > item.sequence);
            } else if j == place {
                if place > 0 {
                    assert(before[place - 1].sequence <= item.sequence);
                    if a < place - 1 {
                        assert(before[a].sequence <= before[place - 1].sequence);
                    }
                }
            } else {
                assert(before[a].sequence <= before[b].sequence);
            }
        }
    }
}

/// An element that is inserted anywhere joins the multiset.
proof fn lemma_insert_multiset<A>(list: Seq<A>, place: int, item: A)
    requires
        0 <= place <= list.len(),
    ensures
        list.insert(place, item).to_multiset() == list.to_multiset().insert(item),
{
    let head = list.take(place);
    let tail = list.skip(place);
    assert(list =~= head + tail);
    assert(list.insert(place, item) =~= head + (seq![item] + tail));
    vstd::seq_lib::lemma_multiset_commutative(head, tail);
    vstd::seq_lib::lemma_multiset_commutative(head, seq![item] + tail);
    vstd::seq_lib::lemma_multiset_commutative(seq![item], tail);
    seq![item].to_multiset_ensures();
    assert(seq![item] =~= Seq::empty().push(item));
    Seq::<A>::empty().to_multiset_ensures();
    assert(Seq::<A>::empty().to_multiset() =~= Multiset::empty());
    assert(seq![item].to_multiset() =~= Multiset::empty().insert(item));
    assert(list.insert(place, item).to_multiset() =~= list.to_multiset().insert(item));
}

/// An element that leaves its slot leaves the multiset.
proof fn lemma_without_multiset<A>(list: Seq<A>, index: int)
    requires
        0 <= index < list.len(),
    ensures
        list.to_multiset() == without(list, index).to_multiset().insert(list[index]),
{
    let last = list.last();
    let rest = without(list, index);
    if index == list.len() - 1 {
        assert(rest =~= list.drop_last());
        assert(list =~= rest.push(last));
        rest.to_multiset_ensures();
    } else {
        let middle = list.drop_last();
        assert(list =~= middle.push(last));
        middle.to_multiset_ensures();
        assert(rest =~= middle.update(index, last));
        let head = middle.take(index);
        let tail = middle.skip(index + 1);
        assert(middle =~= (head + tail).insert(index, list[index]));
        assert(rest =~= (head + tail).insert(index, last));
        lemma_insert_multiset(head + tail, index, list[index]);
        lemma_insert_multiset(head + tail, index, last);
        assert(list.to_multiset() =~= rest.to_multiset().insert(list[index]));
    }
}

/// The priority of a request is its own, raised by one for each whole aging period that
/// it has waited, in milliseconds, by two hundred at most and not above one hundred.
/// Without aging it stays.
pub proof fn waiting_raises_priority<T>(item: Scheduled<T>, aging: u64, now: u64)
    ensures
        aging == 0 ==> effective_priority(item, aging, now) == item.priority,
        aging > 0 ==> effective_priority(item, aging, now) == vstd::math::min(
            100,
            item.priority + vstd::math::min(
                200,
                vstd::math::max(now - item.enqueued_at, 0) / 1_000_000 / vstd::math::max(
                    aging as int / 1_000_000,
                    1,
                ),
            ),
        ),
{
}

/// Where aging has whole milliseconds, one more period of waiting raises the priority by
/// one, until it is one hundred or was raised two hundred times.
pub proof fn one_period_is_one_step<T>(item: Scheduled<T>, aging: u64, now: u64)
    requires
        aging > 0,
        aging % 1_000_000 == 0,
        item.enqueued_at <= now,
        now + aging <= u64::MAX,
        effective_priority(item, aging, now) < 100,
        now - item.enqueued_at < 200 * aging,
    ensures
        effective_priority(item, aging, (now + aging) as u64) == effective_priority(
            item,
            aging,
            now,
        ) + 1,
{
    let waited = (now - item.enqueued_at) / 1_000_000;
    let period = aging as int / 1_000_000;
    assert((now + aging - item.enqueued_at) / 1_000_000 == waited + period);
    assert(period >= 1);
    assert((waited + period) / period == waited / period + 1) by {
        vstd::arithmetic::div_mod::lemma_div_plus_one(waited, period);
    }
    assert(waited < 200 * period);
    assert(waited / period < 200) by (nonlinear_arith)
        requires
            0 <= waited < 200 * period,
            period >= 1,
    ;
}

/// No waiting request has a higher effective priority than the highest one.
proof fn lemma_none_higher<T>(
    pending: Seq<Scheduled<T>>,
    aging: u64,
    now: u64,
    count: int,
    other: int,
)
    requires
        0 <= other < count <= pending.len(),
    ensures
        effective_priority(pending[other], aging, now) <= highest_priority(
            pending,
            aging,
            now,
            count,
        ),
    decreases count,
{
    if count > 1 && other < count - 1 {
        lemma_none_higher(pending, aging, now, count - 1, other);
    }
}

/// Under the fair priority policy the request that is served is no further below any
/// waiting request in effective priority than the band is wide. A request that no other
/// one is further above than that waits for no tenant with a higher runtime.
pub proof fn fair_priority_stays_within_the_band<T>(queue: QueueView<T>, other: int, now: u64)
    requires
        queue.policy == SchedulerPolicy::FairPriority,
        queue.priority_band >= 0,
        queue.has_numbers(),
        0 <= other < queue.pending.len(),
    ensures
        ({
            let next = queue.pending[queue.next(now)];
            let waiting = queue.pending[other];
            let urgency = effective_priority(waiting, queue.aging, now);
            &&& 0 <= queue.next(now) < queue.pending.len()
            &&& effective_priority(next, queue.aging, now) + queue.priority_band >= urgency
            &&& (forall|j: int|
                0 <= j < queue.pending.len() ==> effective_priority(
                    #[trigger] queue.pending[j],
                    queue.aging,
                    now,
                ) <= urgency + queue.priority_band) ==> {
                &&& !below(
                    runtime_of(queue.runtimes, waiting.tenant@),
                    runtime_of(queue.runtimes, next.tenant@),
                )
                &&& next.tenant@ == waiting.tenant@ || level(
                    runtime_of(queue.runtimes, waiting.tenant@),
                    runtime_of(queue.runtimes, next.tenant@),
                ) ==> effective_priority(next, queue.aging, now) > urgency || (effective_priority(
                    next,
                    queue.aging,
                    now,
                ) == urgency && next.sequence <= waiting.sequence)
            }
        }),
{
    let index = queue.next(now);
    let count = queue.pending.len() as int;
    let waiting = queue.pending[other];
    let urgency = effective_priority(waiting, queue.aging, now);
    next_is_first(queue, now);
    fair_priority_serves_the_band(queue, other, now);
    lemma_none_higher(queue.pending, queue.aging, now, count, other);
    assert(!queue.ahead(queue.pending[other], queue.pending[index], now));
    if forall|j: int|
        0 <= j < queue.pending.len() ==> effective_priority(
            #[trigger] queue.pending[j],
            queue.aging,
            now,
        ) <= urgency + queue.priority_band {
        let top = lemma_highest(queue.pending, queue.aging, now, count);
        assert(effective_priority(queue.pending[top], queue.aging, now) <= urgency
            + queue.priority_band);
        assert(queue.effective(waiting, now) >= queue.band_floor(now));
    }
}

/// Under the priority policy no waiting request is more urgent than the one that is
/// served, and none that is as urgent has waited longer.
pub proof fn priority_is_strict<T>(queue: QueueView<T>, other: int, now: u64)
    requires
        queue.policy == SchedulerPolicy::Priority,
        0 <= other < queue.pending.len(),
    ensures
        ({
            let next = queue.pending[queue.next(now)];
            let waiting = queue.pending[other];
            &&& 0 <= queue.next(now) < queue.pending.len()
            &&& effective_priority(next, queue.aging, now) > effective_priority(
                waiting,
                queue.aging,
                now,
            ) || (effective_priority(next, queue.aging, now) == effective_priority(
                waiting,
                queue.aging,
                now,
            ) && next.sequence <= waiting.sequence)
        }),
{
    next_is_first(queue, now);
    assert(!queue.ahead(queue.pending[other], queue.pending[queue.next(now)], now));
}

/// Under the fair policy no waiting tenant has had less service than the one that is
/// served, and of those that had as much the oldest request goes first, however urgent
/// the others are.
pub proof fn fairness_ignores_urgency<T>(queue: QueueView<T>, other: int, now: u64)
    requires
        queue.policy == SchedulerPolicy::Fair,
        queue.has_numbers(),
        0 <= other < queue.pending.len(),
    ensures
        ({
            let next = queue.pending[queue.next(now)];
            let waiting = queue.pending[other];
            let served = runtime_of(queue.runtimes, next.tenant@);
            let unserved = runtime_of(queue.runtimes, waiting.tenant@);
            &&& 0 <= queue.next(now) < queue.pending.len()
            &&& below(served, unserved) || (level(served, unserved) && next.sequence
                <= waiting.sequence)
        }),
{
    next_is_first(queue, now);
    assert(!queue.ahead(queue.pending[other], queue.pending[queue.next(now)], now));
    assert(!is_nan(runtime_of(queue.runtimes, queue.pending[other].tenant@)));
    assert(!is_nan(runtime_of(queue.runtimes, queue.pending[queue.next(now)].tenant@)));
}

/// Runtimes are ordered as the numbers that their bits stand for: positive ones by their
/// bits, negative ones the other way round and below the positive, and both zeros level.
/// Bits beyond infinity are ordered with nothing.
pub proof fn runtimes_are_ordered_as_numbers(left: u64, right: u64)
    requires
        left % 0x8000_0000_0000_0000 <= 0x7ff0_0000_0000_0000,
        right % 0x8000_0000_0000_0000 <= 0x7ff0_0000_0000_0000,
    ensures
        left < 0x8000_0000_0000_0000 && right < 0x8000_0000_0000_0000 ==> (below(left, right)
            <==> left < right) && (level(left, right) <==> left == right),
        left >= 0x8000_0000_0000_0000 && right >= 0x8000_0000_0000_0000 ==> (below(left, right)
            <==> left > right) && (level(left, right) <==> left == right),
        left >= 0x8000_0000_0000_0000 && right < 0x8000_0000_0000_0000 ==> (below(left, right)
            <==> left != 0x8000_0000_0000_0000 || right != 0) && !below(right, left) && (level(
            left,
            right,
        ) <==> left == 0x8000_0000_0000_0000 && right == 0),
{
}

/// What is no number is neither below nor above nor level with any runtime.
pub proof fn no_number_is_unordered(left: u64, right: u64)
    requires
        left % 0x8000_0000_0000_0000 > 0x7ff0_0000_0000_0000,
    ensures
        !below(left, right),
        !below(right, left),
        !level(left, right),
        !level(right, left),
{
}

/// A tenant that has had no service has the runtime zero.
pub proof fn unserved_tenants_start_at_zero(runtimes: Map<Seq<char>, u64>, tenant: Seq<char>)
    ensures
        runtimes.contains_key(tenant) ==> runtime_of(runtimes, tenant) == runtimes[tenant],
        !runtimes.contains_key(tenant) ==> runtime_of(runtimes, tenant) == 0,
{
}

/// A request is charged to its tenant with its cost and the tenant's weight, on top of
/// the tenant's runtime; a tenant without a weight has the weight one.
pub proof fn service_is_charged_by_cost_and_weight<T, C: Fn(u64, u64, u64) -> u64>(
    charge: C,
    queue: QueueView<T>,
    item: Scheduled<T>,
    runtime: u64,
)
    requires
        charges(charge, queue, item, runtime),
    ensures
        call_ensures(
            charge,
            (
                if queue.runtimes.contains_key(item.tenant@) {
                    queue.runtimes[item.tenant@]
                } else {
                    0
                },
                item.cost,
                if queue.weights.contains_key(item.tenant@) {
                    queue.weights[item.tenant@]
                } else {
                    0x3ff0_0000_0000_0000
                },
            ),
            runtime,
        ),
{
}

/// Serving a request charges no other tenant, and takes no other request.
pub proof fn serving_touches_one_tenant<T>(
    queue: QueueView<T>,
    index: int,
    runtime: u64,
    item: Scheduled<T>,
    after: QueueView<T>,
    tenant: Seq<char>,
)
    requires
        0 <= index < queue.pending.len(),
        queue.serves(index, runtime, item, after),
    ensures
        item == queue.pending[index],
        after.runtimes[item.tenant@] == runtime,
        tenant != item.tenant@ ==> (after.runtimes.contains_key(tenant)
            <==> queue.runtimes.contains_key(tenant)) && after.runtimes[tenant]
            == queue.runtimes[tenant],
        queue.pending.to_multiset() == after.pending.to_multiset().insert(item),
        after.policy == queue.policy,
        after.aging == queue.aging,
        after.priority_band == queue.priority_band,
        after.weights == queue.weights,
        after.next_sequence == queue.next_sequence,
{
    lemma_without_multiset(queue.pending, index);
}

/// The lowest runtime of the tenants that wait is one of theirs, and none is below it.
proof fn lemma_lowest<T>(pending: Seq<Scheduled<T>>, runtimes: Map<Seq<char>, u64>, count: int)
    requires
        0 <= count <= pending.len(),
        forall|i: int|
            0 <= i < count ==> runtimes.contains_key((#[trigger] pending[i]).tenant@) && !is_nan(
                runtimes[pending[i].tenant@],
            ),
    ensures
        lowest_runtime(pending, runtimes, count) is None <==> count == 0,
        count > 0 ==> exists|i: int|
            0 <= i < count && runtimes[(#[trigger] pending[i]).tenant@] == lowest_runtime(
                pending,
                runtimes,
                count,
            )->0,
        forall|i: int|
            0 <= i < count ==> !below(
                runtimes[(#[trigger] pending[i]).tenant@],
                lowest_runtime(pending, runtimes, count)->0,
            ),
    decreases count,
{
    if count > 0 {
        lemma_lowest(pending, runtimes, count - 1);
        let last = pending[count - 1];
        assert(!is_nan(runtimes[last.tenant@]));
        if count > 1 {
            let at = choose|i: int|
                0 <= i < count - 1 && runtimes[(#[trigger] pending[i]).tenant@] == lowest_runtime(
                    pending,
                    runtimes,
                    count - 1,
                )->0;
            assert(!is_nan(runtimes[pending[at].tenant@]));
            assert forall|i: int| 0 <= i < count implies !below(
                runtimes[(#[trigger] pending[i]).tenant@],
                lowest_runtime(pending, runtimes, count)->0,
            ) by {
                assert(!is_nan(runtimes[pending[i].tenant@]));
            }
            if lowest_runtime(pending, runtimes, count)->0 == runtimes[last.tenant@] {
                assert(runtimes[pending[count - 1].tenant@] == lowest_runtime(
                    pending,
                    runtimes,
                    count,
                )->0);
            } else {
                assert(runtimes[pending[at].tenant@] == lowest_runtime(pending, runtimes, count)->0);
            }
        } else {
            assert(runtimes[pending[0].tenant@] == lowest_runtime(pending, runtimes, count)->0);
        }
    }
}

/// A new busy period starts afresh: the first request of any tenant finds no runtimes,
/// and its tenant joins at zero.
pub proof fn idle_queues_forget<T>(queue: QueueView<T>, tenant: Seq<char>)
    requires
        queue.pending.len() == 0,
    ensures
        queue.joining_runtime(tenant) == 0,
        queue.standing() =~= Map::<Seq<char>, u64>::empty(),
{
}

/// While others wait, a tenant that did not wait cannot save up service: it joins at its
/// runtime or at the lowest of those that wait, whichever is higher, and one without a
/// runtime joins at the lowest. A tenant that waits keeps its runtime.
pub proof fn absent_tenants_save_nothing<T>(queue: QueueView<T>, tenant: Seq<char>)
    requires
        queue.pending.len() > 0,
        forall|i: int|
            0 <= i < queue.pending.len() ==> queue.runtimes.contains_key(
                (#[trigger] queue.pending[i]).tenant@,
            ) && !is_nan(queue.runtimes[queue.pending[i].tenant@]),
        queue.runtimes.contains_key(tenant) ==> !is_nan(queue.runtimes[tenant]),
    ensures
        ({
            let joined = queue.joining_runtime(tenant);
            let waits = exists|i: int|
                0 <= i < queue.pending.len() && (#[trigger] queue.pending[i]).tenant@ == tenant;
            &&& queue.standing() == queue.runtimes
            &&& waits ==> joined == queue.runtimes[tenant]
            &&& !waits ==> exists|i: int|
                0 <= i < queue.pending.len() && !below(
                    joined,
                    queue.runtimes[(#[trigger] queue.pending[i]).tenant@],
                )
            &&& queue.runtimes.contains_key(tenant) ==> !below(joined, queue.runtimes[tenant])
            &&& queue.runtimes.contains_key(tenant) && joined != queue.runtimes[tenant]
                || !queue.runtimes.contains_key(tenant) ==> {
                &&& exists|i: int|
                    0 <= i < queue.pending.len() && joined == queue.runtimes[(
                    #[trigger] queue.pending[i]).tenant@]
                &&& forall|i: int|
                    0 <= i < queue.pending.len() ==> !below(
                        queue.runtimes[(#[trigger] queue.pending[i]).tenant@],
                        joined,
                    )
            }
        }),
{
    let count = queue.pending.len() as int;
    lemma_lowest(queue.pending, queue.runtimes, count);
    let lowest = lowest_runtime(queue.pending, queue.runtimes, count)->0;
    let at = choose|i: int|
        0 <= i < count && queue.runtimes[(#[trigger] queue.pending[i]).tenant@] == lowest;
    assert(!is_nan(queue.runtimes[queue.pending[at].tenant@]));
    assert(!below(queue.joining_runtime(tenant), queue.runtimes[queue.pending[at].tenant@])
        || queue.is_active(tenant));
    if queue.is_active(tenant) {
        let i = choose|i: int|
            0 <= i < queue.pending.len() && (#[trigger] queue.pending[i]).tenant@ == tenant;
        assert(queue.runtimes.contains_key(queue.pending[i].tenant@));
    }
}

/// A request costs the product of its query rows and the rows of all its candidates,
/// as far as that fits in 64 bits.
pub proof fn every_candidate_costs(candidates: Seq<Descriptor>, query_rows: u32)
    ensures
        capped(candidate_rows(candidates, candidates.len() as int) * query_rows) as int
            == vstd::math::min(
            candidates.fold_left(0int, |sum: int, candidate: Descriptor| sum + candidate.rows)
                * query_rows,
            0xffff_ffff_ffff_ffff,
        ),
{
    lemma_candidate_rows(candidates, candidates.len() as int);
    let sum = candidate_rows(candidates, candidates.len() as int);
    assert(candidates.take(candidates.len() as int) =~= candidates);
    assert(sum * query_rows >= 0) by (nonlinear_arith)
        requires
            sum >= 0,
            query_rows >= 0,
    ;
}

proof fn lemma_candidate_rows(candidates: Seq<Descriptor>, count: int)
    requires
        0 <= count <= candidates.len(),
    ensures
        candidate_rows(candidates, count) >= 0,
        candidate_rows(candidates, count) == candidates.take(count).fold_left(
            0int,
            |sum: int, candidate: Descriptor| sum + candidate.rows,
        ),
    decreases count,
{
    if count > 0 {
        lemma_candidate_rows(candidates, count - 1);
        assert(candidates.take(count).drop_last() =~= candidates.take(count - 1));
    }
}

} // verus!
