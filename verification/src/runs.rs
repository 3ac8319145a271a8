//! What admission promises over whole runs of events.
use crate::bucket::{capacity, law_refill_is_steady, other_than, TOKEN};
use crate::clock::Instant;
use crate::config::{policy_for, ConfigView, Policy};
use crate::engine::Decision;
use crate::laws::{
    law_concurrency_stays_limited, law_looking_keeps_the_line, law_other_credentials_are_untouched,
    ground, lemma_attempt_cases, lemma_ground, may_attempt,
};
use crate::state::{
    actives, attempted, begun, begun_inside, completed, consistent, detached, family, in_budget, initial,
    level_at, outside, polled, reconfiguration, rule, running, running_requests, stopped, tally,
    waiting_requests, waits, Stage, State,
};
use crate::upkeep::{
    law_attempt_keeps_consistency, law_begin_inside_keeps_consistency,
    law_begin_keeps_consistency, law_complete_keeps_consistency, law_initial_is_consistent,
    law_poll_keeps_consistency, law_reconfigure_keeps_consistency, law_stop_keeps_consistency,
    lemma_attempted_sound, lemma_filter, lemma_level_at, lemma_polled_sound,
};
use vstd::prelude::*;

verus! {

/// What can happen to the admission state.
pub enum Event {
    /// A request registers.
    Begin(Seq<char>),
    /// A request registers inside another one.
    BeginInside(Seq<char>, Seq<char>),
    /// A request starts an attempt on a credential.
    Attempt(Seq<char>, Seq<char>, Instant),
    /// A request looks again.
    Poll(Seq<char>, Instant),
    /// A request ends.
    Complete(Seq<char>),
    /// A configuration is offered.
    Reconfigure(ConfigView, Instant),
    /// New work is refused from now on.
    Stop,
}

/// The state after an event.
pub open spec fn step(s: State, event: Event) -> State {
    match event {
        Event::Begin(id) => begun(s, id).0,
        Event::BeginInside(id, parent) => begun_inside(s, id, parent).0,
        Event::Attempt(id, key, now) => attempted(s, id, key, now).0,
        Event::Poll(id, now) => polled(s, id, now).0,
        Event::Complete(id) => completed(s, id),
        Event::Reconfigure(config, now) => reconfiguration(s, config, now).0,
        Event::Stop => stopped(s),
    }
}

/// The state after a run of events.
pub open spec fn played(s: State, events: Seq<Event>) -> State
    decreases events.len(),
{
    if events.len() == 0 {
        s
    } else {
        step(played(s, events.drop_last()), events.last())
    }
}

/// The reading of the clock that an event comes with.
pub open spec fn stamp(event: Event) -> Option<Instant> {
    match event {
        Event::Attempt(_, _, now) => Some(now),
        Event::Poll(_, now) => Some(now),
        Event::Reconfigure(_, now) => Some(now),
        _ => None,
    }
}

/// An event that comes with a reading of the clock between two points of time, if
/// with any.
pub open spec fn stamped(event: Event, start: Instant, end: Instant) -> bool {
    stamp(event) matches Some(now) ==> start.nanos <= now.nanos <= end.nanos
}

/// Two events whose readings of the clock, if any, are in order.
pub open spec fn follows(first: Event, second: Event) -> bool {
    stamp(first) is Some && stamp(second) is Some ==> stamp(first)->Some_0.nanos <= stamp(
        second,
    )->Some_0.nanos
}

/// A run within a span of time: the clock does not go back.
pub open spec fn within(events: Seq<Event>, start: Instant, end: Instant) -> bool {
    &&& start.nanos <= end.nanos
    &&& forall|i: int| 0 <= i < events.len() ==> stamped(#[trigger] events[i], start, end)
    &&& forall|i: int, j: int|
        0 <= i <= j < events.len() ==> follows(#[trigger] events[i], #[trigger] events[j])
}

/// Every reading of the clock is one that time spans can be added to.
pub open spec fn readable(events: Seq<Event>) -> bool {
    forall|i: int|
        0 <= i < events.len() ==> (stamp(#[trigger] events[i]) matches Some(now)
            ==> now.readable())
}

/// An event that leaves a credential with its policy: all are, but for a
/// configuration that has another one.
pub open spec fn leaves_policy(event: Event, key: Seq<char>, policy: Policy) -> bool {
    event matches Event::Reconfigure(config, _) ==> policy_for(config, key) == policy
}

/// A run through which a credential keeps its policy.
pub open spec fn keeps_policy(events: Seq<Event>, key: Seq<char>, policy: Policy) -> bool {
    forall|i: int| 0 <= i < events.len() ==> leaves_policy(#[trigger] events[i], key, policy)
}

/// An event that admits an attempt on a credential, on arrival or from the line.
pub open spec fn admits(s: State, event: Event, key: Seq<char>) -> bool {
    match event {
        Event::Attempt(id, wanted, now) => wanted == key && attempted(s, id, wanted, now).1
            == Decision::Admit,
        Event::Poll(id, now) => waits(s, id, key) && polled(s, id, now).1 == Decision::Admit,
        _ => false,
    }
}

/// The number of attempts on a credential that a run admits.
pub open spec fn admissions(s: State, events: Seq<Event>, key: Seq<char>) -> int
    decreases events.len(),
{
    if events.len() == 0 {
        0
    } else {
        admissions(s, events.drop_last(), key) + if admits(
            played(s, events.drop_last()),
            events.last(),
            key,
        ) {
            1int
        } else {
            0
        }
    }
}

/// No bucket is ahead of the clock.
pub open spec fn timely(s: State, now: Instant) -> bool {
    forall|key: Seq<char>| #[trigger]
        s.buckets.dom().contains(key) ==> s.buckets[key].updated.nanos <= now.nanos
}

// ---------------------------------------------------------------------------
// Consistency

/// Every event keeps the state consistent.
pub proof fn lemma_step_consistent(s: State, event: Event)
    requires
        consistent(s),
    ensures
        consistent(step(s, event)),
{
    match event {
        Event::Begin(id) => law_begin_keeps_consistency(s, id),
        Event::BeginInside(id, parent) => law_begin_inside_keeps_consistency(s, id, parent),
        Event::Attempt(id, key, now) => law_attempt_keeps_consistency(s, id, key, now),
        Event::Poll(id, now) => law_poll_keeps_consistency(s, id, now),
        Event::Complete(id) => law_complete_keeps_consistency(s, id),
        Event::Reconfigure(config, now) => law_reconfigure_keeps_consistency(s, config, now),
        Event::Stop => law_stop_keeps_consistency(s),
    }
}

/// A credential keeps its policy through an event that leaves it.
proof fn lemma_step_policy(s: State, event: Event, key: Seq<char>)
    requires
        consistent(s),
        leaves_policy(event, key, rule(s, key)),
    ensures
        rule(step(s, event), key) == rule(s, key),
{
    match event {
        Event::Attempt(id, wanted, now) => lemma_attempted_sound(s, id, wanted, now),
        Event::Poll(id, now) => lemma_polled_sound(s, id, now),
        _ => {},
    }
}

/// Every state that a run reaches is consistent.
pub proof fn law_every_reached_state_is_consistent(config: ConfigView, events: Seq<Event>)
    ensures
        consistent(played(initial(config), events)),
    decreases events.len(),
{
    if events.len() == 0 {
        law_initial_is_consistent(config);
    } else {
        law_every_reached_state_is_consistent(config, events.drop_last());
        lemma_step_consistent(played(initial(config), events.drop_last()), events.last());
    }
}

// ---------------------------------------------------------------------------
// Rates

/// An event takes one token from a credential where it admits an attempt on it, and
/// nothing else changes what the credential's budget is worth.
proof fn lemma_step_level(s: State, event: Event, key: Seq<char>, at: Instant)
    requires
        consistent(s),
        timely(s, at),
        stamp(event) matches Some(now) ==> now == at && now.readable(),
        leaves_policy(event, key, rule(s, key)),
        rule(s, key).enabled,
        rule(s, key).requests_per_minute > 0,
    ensures
        timely(step(s, event), at),
        level_at(step(s, event), key, at).tokens == level_at(s, key, at).tokens - if admits(
            s,
            event,
            key,
        ) {
            TOKEN as int
        } else {
            0
        },
{
    let rate = rule(s, key).requests_per_minute as int;
    let policy = rule(s, key);
    let next = step(s, event);
    lemma_level_at(s, key, at);
    lemma_step_policy(s, event, key);
    assert(0 * rate == 0) by (nonlinear_arith);
    if s.buckets.dom().contains(key) {
        assert(in_budget(s, key));
        law_refill_is_steady(policy, s.buckets[key], at, at);
    }
    match event {
        Event::Attempt(id, wanted, now) => {
            if may_attempt(s, id) {
                lemma_ground(s, id, wanted, now);
                if rule(s, wanted).enabled {
                    lemma_attempt_cases(s, id, wanted, now);
                }
            }
            if wanted != key {
                law_other_credentials_are_untouched(s, id, wanted, now, key, now);
            }
        },
        _ => {},
    }
}

/// As time passes, a budget gains no more than its rate.
proof fn lemma_level_later(s: State, key: Seq<char>, now: Instant, later: Instant)
    requires
        consistent(s),
        timely(s, now),
        now.nanos <= later.nanos,
    ensures
        level_at(s, key, later).tokens <= level_at(s, key, now).tokens + (later.nanos - now.nanos)
            * rule(s, key).requests_per_minute,
{
    let rate = rule(s, key).requests_per_minute as int;
    let span = later.nanos - now.nanos;
    assert(span * rate >= 0) by (nonlinear_arith)
        requires
            span >= 0,
            rate >= 0,
    ;
    if s.buckets.dom().contains(key) {
        assert(in_budget(s, key));
        law_refill_is_steady(rule(s, key), s.buckets[key], now, later);
    }
}

/// What a run within a span of time leaves of a budget.
proof fn lemma_rate(s: State, events: Seq<Event>, key: Seq<char>, start: Instant, end: Instant)
    requires
        consistent(s),
        timely(s, start),
        within(events, start, end),
        readable(events),
        keeps_policy(events, key, rule(s, key)),
        rule(s, key).enabled,
        rule(s, key).requests_per_minute > 0,
    ensures
        consistent(played(s, events)),
        timely(played(s, events), end),
        rule(played(s, events), key) == rule(s, key),
        admissions(s, events, key) * TOKEN + level_at(played(s, events), key, end).tokens
            <= level_at(s, key, start).tokens + (end.nanos - start.nanos) * rule(
            s,
            key,
        ).requests_per_minute,
    decreases events.len(),
{
    let rate = rule(s, key).requests_per_minute as int;
    if events.len() == 0 {
        lemma_level_later(s, key, start, end);
    } else {
        let front = events.drop_last();
        let last = events[events.len() - 1];
        let before = played(s, front);
        let at = match stamp(last) {
            Some(now) => now,
            None => end,
        };
        assert(stamped(last, start, end));
        assert forall|i: int| 0 <= i < front.len() implies stamped(
            #[trigger] front[i],
            start,
            at,
        ) by {
            assert(stamped(events[i], start, end));
            assert(follows(events[i], events[events.len() - 1]));
        }
        assert forall|i: int, j: int| 0 <= i <= j < front.len() implies follows(
            #[trigger] front[i],
            #[trigger] front[j],
        ) by {
            assert(follows(events[i], events[j]));
        }
        assert forall|i: int| 0 <= i < front.len() implies (stamp(#[trigger] front[i]) matches Some(
            now,
        ) ==> now.readable()) by {
            assert(front[i] == events[i]);
        }
        assert forall|i: int| 0 <= i < front.len() implies leaves_policy(
            #[trigger] front[i],
            key,
            rule(s, key),
        ) by {
            assert(leaves_policy(events[i], key, rule(s, key)));
        }
        lemma_rate(s, front, key, start, at);
        assert(leaves_policy(last, key, rule(s, key)));
        lemma_step_policy(before, last, key);
        lemma_step_consistent(before, last);
        lemma_step_level(before, last, key, at);
        let after = step(before, last);
        lemma_level_later(after, key, at, end);
        let a = at.nanos - start.nanos;
        let b = end.nanos - at.nanos;
        assert((a + b) * rate == a * rate + b * rate) by (nonlinear_arith);
        let n = admissions(s, front, key);
        assert((n + 1) * TOKEN == n * TOKEN + TOKEN) by (nonlinear_arith);
    }
}

/// A rate limit holds over every span of time: from any state that a run reaches,
/// a run within a span of time admits no more attempts on a credential than its
/// budget at the start pays for, at most the burst, and what flows in until the end.
/// The clock does not go back, and the credential keeps its policy.
pub proof fn law_rate_is_limited_over_runs(
    config: ConfigView,
    earlier: Seq<Event>,
    events: Seq<Event>,
    key: Seq<char>,
    origin: Instant,
    start: Instant,
    end: Instant,
)
    requires
        within(earlier, origin, start),
        within(events, start, end),
        readable(events),
        ({
            let policy = rule(played(initial(config), earlier), key);
            policy.enabled && policy.requests_per_minute > 0 && keeps_policy(events, key, policy)
        }),
    ensures
        ({
            let s = played(initial(config), earlier);
            let policy = rule(s, key);
            let budget = level_at(s, key, start).tokens;
            &&& budget <= capacity(policy)
            &&& admissions(s, events, key) * TOKEN <= budget + (end.nanos - start.nanos)
                * policy.requests_per_minute
        }),
{
    let s = played(initial(config), earlier);
    law_initial_is_consistent(config);
    lemma_reached_timely(initial(config), earlier, origin, start);
    lemma_level_at(s, key, start);
    lemma_rate(s, events, key, start, end);
    lemma_level_at(played(s, events), key, end);
}

/// An event leaves no bucket ahead of the clock.
proof fn lemma_step_timely(s: State, event: Event, at: Instant)
    requires
        consistent(s),
        timely(s, at),
        stamp(event) matches Some(now) ==> now.nanos <= at.nanos,
    ensures
        timely(step(s, event), at),
{
    let next = step(s, event);
    assert forall|key: Seq<char>| #[trigger]
        next.buckets.dom().contains(key) implies next.buckets[key].updated.nanos <= at.nanos by {
        match event {
            Event::Attempt(id, wanted, now) => {
                if may_attempt(s, id) {
                    let base = ground(s, id, wanted, now);
                    assert(detached(s, id).buckets == s.buckets);
                    assert(base.buckets.dom().contains(key) ==> base.buckets[key].updated.nanos
                        <= at.nanos);
                }
            },
            _ => {},
        }
    }
}

/// A run leaves no bucket ahead of the clock.
proof fn lemma_reached_timely(s: State, events: Seq<Event>, start: Instant, end: Instant)
    requires
        consistent(s),
        timely(s, start),
        within(events, start, end),
    ensures
        consistent(played(s, events)),
        timely(played(s, events), end),
    decreases events.len(),
{
    if events.len() > 0 {
        let front = events.drop_last();
        let last = events[events.len() - 1];
        assert(stamped(last, start, end));
        assert(within(front, start, end)) by {
            assert forall|i: int| 0 <= i < front.len() implies stamped(
                #[trigger] front[i],
                start,
                end,
            ) by {
                assert(stamped(events[i], start, end));
            }
            assert forall|i: int, j: int| 0 <= i <= j < front.len() implies follows(
                #[trigger] front[i],
                #[trigger] front[j],
            ) by {
                assert(follows(events[i], events[j]));
            }
        }
        lemma_reached_timely(s, front, start, end);
        lemma_step_consistent(played(s, front), last);
        lemma_step_timely(played(s, front), last, end);
    }
}

// ---------------------------------------------------------------------------
// Counts

/// An event that leaves the bound on live requests: all do, but for a configuration
/// that has another one.
pub open spec fn leaves_bound(event: Event, bound: usize) -> bool {
    event matches Event::Reconfigure(config, _) ==> config.max_tracked_requests == bound
}

/// A run through which the bound on live requests stays.
pub open spec fn keeps_bound(events: Seq<Event>, bound: usize) -> bool {
    forall|i: int| 0 <= i < events.len() ==> leaves_bound(#[trigger] events[i], bound)
}

/// The running attempts and the line of a credential are within the limits.
pub open spec fn within_limits(s: State, key: Seq<char>, policy: Policy) -> bool {
    &&& policy.max_concurrency > 0 ==> running(s.requests, key) <= policy.max_concurrency
    &&& s.buckets.dom().contains(key) ==> s.buckets[key].queue.len() <= policy.max_queue
}

/// An event leaves a credential within its limits.
proof fn lemma_step_limits(s: State, event: Event, key: Seq<char>)
    requires
        consistent(s),
        stamp(event) matches Some(now) ==> now.readable(),
        leaves_policy(event, key, rule(s, key)),
        within_limits(s, key, rule(s, key)),
    ensures
        within_limits(step(s, event), key, rule(s, key)),
{
    let none = Instant { nanos: 0 };
    let policy = rule(s, key);
    if policy.max_concurrency > 0 {
        match event {
            Event::Begin(id) => law_concurrency_stays_limited(s, id, key, id, none, key),
            Event::BeginInside(id, parent) => law_concurrency_stays_limited(
                s,
                id,
                key,
                parent,
                none,
                key,
            ),
            Event::Attempt(id, wanted, now) => law_concurrency_stays_limited(
                s,
                id,
                wanted,
                id,
                now,
                key,
            ),
            Event::Poll(id, now) => law_concurrency_stays_limited(s, id, key, id, now, key),
            Event::Complete(id) => law_concurrency_stays_limited(s, id, key, id, none, key),
            _ => {},
        }
    }
    match event {
        Event::Attempt(id, wanted, now) => {
            if may_attempt(s, id) {
                lemma_ground(s, id, wanted, now);
                lemma_level_at(s, key, now);
                if rule(s, wanted).enabled {
                    lemma_attempt_cases(s, id, wanted, now);
                }
            }
        },
        Event::Poll(id, now) => {
            if s.buckets.dom().contains(key) {
                law_looking_keeps_the_line(s, id, now, key);
                lemma_filter(s.buckets[key].queue, other_than(id));
            }
        },
        Event::Complete(id) => {
            lemma_filter(s.buckets[key].queue, outside(family(s.parents, id)));
        },
        _ => {},
    }
}

/// In every state that a run reaches, the attempts running on a credential are
/// within its limit, where there is one, and so is its line: as long as the
/// credential keeps its policy.
pub proof fn law_limits_hold_in_every_reached_state(
    config: ConfigView,
    events: Seq<Event>,
    key: Seq<char>,
)
    requires
        readable(events),
        keeps_policy(events, key, policy_for(config, key)),
    ensures
        ({
            let s = played(initial(config), events);
            &&& rule(s, key) == policy_for(config, key)
            &&& within_limits(s, key, policy_for(config, key))
        }),
    decreases events.len(),
{
    let policy = policy_for(config, key);
    if events.len() == 0 {
        assert(actives(initial(config).requests, key) =~= Set::empty());
    } else {
        let front = events.drop_last();
        let last = events[events.len() - 1];
        assert forall|i: int| 0 <= i < front.len() implies (stamp(#[trigger] front[i]) matches Some(
            now,
        ) ==> now.readable()) by {
            assert(front[i] == events[i]);
        }
        assert forall|i: int| 0 <= i < front.len() implies leaves_policy(
            #[trigger] front[i],
            key,
            policy,
        ) by {
            assert(leaves_policy(events[i], key, policy));
        }
        law_limits_hold_in_every_reached_state(config, front, key);
        law_every_reached_state_is_consistent(config, front);
        let before = played(initial(config), front);
        assert(leaves_policy(last, key, policy));
        lemma_step_policy(before, last, key);
        lemma_step_limits(before, last, key);
    }
}

/// An event leaves the number of live requests within the bound.
proof fn lemma_step_bound(s: State, event: Event)
    requires
        consistent(s),
        leaves_bound(event, s.config.max_tracked_requests),
        s.requests.len() <= s.config.max_tracked_requests,
    ensures
        step(s, event).requests.len() <= s.config.max_tracked_requests,
        step(s, event).config.max_tracked_requests == s.config.max_tracked_requests,
{
    match event {
        Event::Attempt(id, key, now) => lemma_attempted_sound(s, id, key, now),
        Event::Poll(id, now) => lemma_polled_sound(s, id, now),
        Event::Complete(id) => {
            let left = completed(s, id).requests.dom();
            assert(left.subset_of(s.requests.dom()));
            vstd::set_lib::lemma_len_subset(left, s.requests.dom());
        },
        _ => {},
    }
}

/// In every state that a run reaches, no more requests are live than the
/// configuration allows, and every request that runs or waits is one of them.
pub proof fn law_counts_are_bounded_in_every_reached_state(
    config: ConfigView,
    events: Seq<Event>,
)
    requires
        keeps_bound(events, config.max_tracked_requests),
    ensures
        ({
            let (live, active, waiting) = tally(played(initial(config), events));
            0 <= active && 0 <= waiting && active + waiting <= live <= config.max_tracked_requests
        }),
{
    let s = played(initial(config), events);
    lemma_reached_bound(config, events);
    law_every_reached_state_is_consistent(config, events);
    let both = running_requests(s.requests).union(waiting_requests(s.requests));
    assert(running_requests(s.requests).disjoint(waiting_requests(s.requests)));
    vstd::set_lib::lemma_set_disjoint_lens(
        running_requests(s.requests),
        waiting_requests(s.requests),
    );
    assert(both.subset_of(s.requests.dom()));
    vstd::set_lib::lemma_len_subset(both, s.requests.dom());
}

proof fn lemma_reached_bound(config: ConfigView, events: Seq<Event>)
    requires
        keeps_bound(events, config.max_tracked_requests),
    ensures
        ({
            let s = played(initial(config), events);
            &&& s.config.max_tracked_requests == config.max_tracked_requests
            &&& s.requests.len() <= config.max_tracked_requests
        }),
    decreases events.len(),
{
    if events.len() > 0 {
        let front = events.drop_last();
        let last = events[events.len() - 1];
        assert forall|i: int| 0 <= i < front.len() implies leaves_bound(
            #[trigger] front[i],
            config.max_tracked_requests,
        ) by {
            assert(leaves_bound(events[i], config.max_tracked_requests));
        }
        lemma_reached_bound(config, front);
        law_every_reached_state_is_consistent(config, front);
        assert(leaves_bound(last, config.max_tracked_requests));
        lemma_step_bound(played(initial(config), front), last);
    }
}

/// An event that starts no attempt on another credential.
pub open spec fn keeps_to(event: Event, key: Seq<char>) -> bool {
    event matches Event::Attempt(_, wanted, _) ==> wanted == key
}

/// Every request runs or waits on one credential, or is idle.
pub open spec fn gathered(s: State, key: Seq<char>) -> bool {
    forall|id: Seq<char>| #[trigger]
        s.requests.dom().contains(id) ==> match s.requests[id] {
            Stage::Idle => true,
            Stage::Active(on) => on == key,
            Stage::Queued(on, _) => on == key,
        }
}

proof fn lemma_reached_gathered(config: ConfigView, events: Seq<Event>, key: Seq<char>)
    requires
        readable(events),
        forall|i: int| 0 <= i < events.len() ==> keeps_to(#[trigger] events[i], key),
    ensures
        gathered(played(initial(config), events), key),
    decreases events.len(),
{
    if events.len() > 0 {
        let front = events.drop_last();
        let last = events[events.len() - 1];
        assert forall|i: int| 0 <= i < front.len() implies (stamp(#[trigger] front[i]) matches Some(
            now,
        ) ==> now.readable()) by {
            assert(front[i] == events[i]);
        }
        assert forall|i: int| 0 <= i < front.len() implies keeps_to(#[trigger] front[i], key) by {
            assert(keeps_to(events[i], key));
        }
        lemma_reached_gathered(config, front, key);
        law_every_reached_state_is_consistent(config, front);
        assert(keeps_to(last, key));
        let before = played(initial(config), front);
        match last {
            Event::Attempt(id, wanted, now) => {
                if may_attempt(before, id) {
                    lemma_ground(before, id, wanted, now);
                    if rule(before, wanted).enabled {
                        lemma_attempt_cases(before, id, wanted, now);
                    }
                }
            },
            _ => {},
        }
    }
}

/// Where one credential is used, the counts are within its limits: no more attempts
/// run than its policy allows, where it limits them, and no more requests wait.
pub proof fn law_counts_of_one_credential(config: ConfigView, events: Seq<Event>, key: Seq<char>)
    requires
        readable(events),
        keeps_policy(events, key, policy_for(config, key)),
        forall|i: int| 0 <= i < events.len() ==> keeps_to(#[trigger] events[i], key),
    ensures
        ({
            let (_, active, waiting) = tally(played(initial(config), events));
            let policy = policy_for(config, key);
            &&& policy.max_concurrency > 0 ==> active <= policy.max_concurrency
            &&& waiting <= policy.max_queue
        }),
{
    let s = played(initial(config), events);
    lemma_reached_gathered(config, events, key);
    law_limits_hold_in_every_reached_state(config, events, key);
    law_every_reached_state_is_consistent(config, events);
    assert(running_requests(s.requests) =~= actives(s.requests, key));
    let waiting = waiting_requests(s.requests);
    if s.buckets.dom().contains(key) {
        let line = s.buckets[key].queue;
        line.lemma_cardinality_of_set();
        vstd::seq_lib::seq_to_set_is_finite(line);
        assert(waiting.subset_of(line.to_set()));
        vstd::set_lib::lemma_len_subset(waiting, line.to_set());
    } else {
        assert(waiting =~= Set::empty());
    }
}

} // verus!
