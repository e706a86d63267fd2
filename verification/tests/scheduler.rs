//! Which waiting request runs next.

use tilemaxsim::scheduler::{RequestQueue, Scheduled, SchedulerPolicy, MILLISECOND, UNIT_WEIGHT};
use tilemaxsim::table::Table;

const SECOND: u64 = 1_000 * MILLISECOND;

/// The runtime of a tenant after a request.
fn charge(runtime: u64, cost: u64, weight: u64) -> u64 {
    (f64::from_bits(runtime) + cost as f64 / f64::from_bits(weight)).to_bits()
}

fn item(tenant: &str, priority: i32, cost: u64, now: u64, id: u32) -> Scheduled<u32> {
    Scheduled::new(
        tenant.to_owned(),
        priority,
        cost,
        now,
        now + 60 * SECOND,
        id,
    )
}

#[test]
fn strict_priority_uses_higher_priority_then_fcfs() {
    let now = 1_000 * SECOND;
    let mut queue = RequestQueue::new(
        SchedulerPolicy::Priority,
        60 * SECOND,
        0,
        Table::new(),
    );
    queue.push(item("a", 0, 1, now, 1));
    queue.push(item("b", 10, 1, now, 2));
    queue.push(item("c", 10, 1, now, 3));
    assert_eq!(queue.pop(now, &charge).unwrap().payload, 2);
    assert_eq!(queue.pop(now, &charge).unwrap().payload, 3);
    assert_eq!(queue.pop(now, &charge).unwrap().payload, 1);
}

#[test]
fn fair_priority_alternates_equal_priority_tenants() {
    let now = 1_000 * SECOND;
    let mut queue = RequestQueue::new(
        SchedulerPolicy::FairPriority,
        60 * SECOND,
        0,
        Table::new(),
    );
    queue.push(item("noisy", 0, 10, now, 1));
    queue.push(item("noisy", 0, 10, now, 2));
    queue.push(item("quiet", 0, 10, now, 3));
    assert_eq!(queue.pop(now, &charge).unwrap().payload, 1);
    assert_eq!(queue.pop(now, &charge).unwrap().payload, 3);
    assert_eq!(queue.pop(now, &charge).unwrap().payload, 2);
}

#[test]
fn full_priority_band_keeps_priority_without_sacrificing_tenant_fairness() {
    let now = 1_000 * SECOND;
    let mut queue = RequestQueue::new(
        SchedulerPolicy::FairPriority,
        60 * SECOND,
        200,
        Table::new(),
    );
    queue.push(item("noisy", 100, 10, now, 1));
    queue.push(item("noisy", 100, 10, now, 2));
    queue.push(item("quiet", -100, 10, now, 3));
    assert_eq!(queue.pop(now, &charge).unwrap().payload, 1);
    assert_eq!(queue.pop(now, &charge).unwrap().payload, 3);
    assert_eq!(queue.pop(now, &charge).unwrap().payload, 2);
}

#[test]
fn aging_eventually_promotes_waiting_work() {
    let now = 1_000 * SECOND;
    let mut queue = RequestQueue::new(
        SchedulerPolicy::Priority,
        10 * MILLISECOND,
        0,
        Table::new(),
    );
    queue.push(item("old", 0, 1, now, 1));
    queue.push(item("new", 5, 1, now + 60 * MILLISECOND, 2));
    assert_eq!(
        queue.pop(now + 60 * MILLISECOND, &charge).unwrap().payload,
        1
    );
}

#[test]
fn expired_requests_leave_without_consuming_service_credit() {
    let now = 1_000 * SECOND;
    let mut queue = RequestQueue::new(
        SchedulerPolicy::FairPriority,
        SECOND,
        0,
        Table::new(),
    );
    let mut expired = item("a", 0, 1, now, 1);
    expired.deadline = now;
    queue.push(expired);
    queue.push(item("b", 0, 1, now, 2));
    assert_eq!(queue.drain_expired(now).len(), 1);
    assert_eq!(queue.pop(now, &charge).unwrap().payload, 2);
}

#[test]
fn policies_have_names() {
    assert_eq!(SchedulerPolicy::parse("fair"), Ok(SchedulerPolicy::Fair));
    assert_eq!(SchedulerPolicy::parse("priority"), Ok(SchedulerPolicy::Priority));
    assert_eq!(SchedulerPolicy::parse("fair-priority"), Ok(SchedulerPolicy::FairPriority));
    assert_eq!(
        SchedulerPolicy::parse("random").unwrap_err(),
        "scheduler policy must be fair, priority, or fair-priority"
    );
}

#[test]
fn heavier_tenants_are_served_more_often() {
    let now = 1_000 * SECOND;
    let mut weights = Table::new();
    weights.insert("heavy".to_owned(), 4.0_f64.to_bits());
    assert_eq!(f64::from_bits(UNIT_WEIGHT), 1.0);
    let mut queue = RequestQueue::new(SchedulerPolicy::Fair, 60 * SECOND, 0, weights);
    for id in 0..4 {
        queue.push(item("heavy", 0, 4, now, id));
    }
    queue.push(item("light", 0, 4, now, 10));
    queue.push(item("light", 0, 4, now, 11));
    let mut order = Vec::new();
    while let Some(next) = queue.pop(now, &charge) {
        order.push(next.payload);
    }
    assert_eq!(order, [0, 10, 1, 2, 3, 11]);
    assert_eq!(queue.len(), 0);
}

#[test]
fn requests_cost_at_least_one_unit() {
    assert_eq!(item("a", 0, 0, 5, 1).cost, 1);
    assert_eq!(item("a", 0, 7, 5, 1).cost, 7);
}

fn fair_order(weight: f64) -> Vec<u32> {
    let now = 1_000 * SECOND;
    let mut weights = Table::new();
    weights.insert("odd".to_owned(), weight.to_bits());
    let mut queue = RequestQueue::new(SchedulerPolicy::Fair, 60 * SECOND, 0, weights);
    queue.push(item("odd", 0, 1, now, 1));
    queue.push(item("even", 0, 1, now, 2));
    queue.push(item("odd", 0, 1, now, 3));
    (0..3).map(|_| queue.pop(now, &charge).unwrap().payload).collect()
}

#[test]
fn runtimes_are_ordered_as_numbers() {
    assert_eq!(fair_order(1.0), [1, 2, 3]);
    assert_eq!(fair_order(f64::INFINITY), [1, 2, 3]);
    // A negative runtime is below zero.
    assert_eq!(fair_order(-1.0), [1, 3, 2]);
    // What is no number is neither above nor below another runtime.
    assert_eq!(fair_order(f64::NAN), [1, 3, 2]);
}

#[test]
fn tenants_join_at_the_lowest_runtime_that_is_a_number() {
    let now = 1_000 * SECOND;
    let mut weights = Table::new();
    weights.insert("odd".to_owned(), f64::NAN.to_bits());
    let mut queue = RequestQueue::new(SchedulerPolicy::FairPriority, 60 * SECOND, 0, weights);
    queue.push(item("odd", 0, 1, now, 1));
    queue.push(item("even", 0, 5, now, 2));
    queue.push(item("even", 0, 5, now, 3));
    assert_eq!(queue.pop(now, &charge).unwrap().payload, 1);
    assert_eq!(queue.pop(now, &charge).unwrap().payload, 2);
    // The runtime of the first tenant is no number: it joins again at five.
    queue.push(item("odd", 0, 1, now, 4));
    queue.push(item("new", 0, 1, now, 5));
    assert_eq!(queue.pop(now, &charge).unwrap().payload, 3);
    assert_eq!(queue.pop(now, &charge).unwrap().payload, 4);
    assert_eq!(queue.pop(now, &charge).unwrap().payload, 5);
}
