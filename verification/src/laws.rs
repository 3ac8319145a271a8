//! What admission promises, event by event.
use crate::bucket::{
    available, capacity, elapsed, fresh, law_refill_is_bounded, law_refill_is_steady,
    law_wake_time, leaving, other_than, refilled, wake_time, TOKEN,
};
use crate::clock::{Instant, MILLI};
use crate::config::{config_error, policy_for, ConfigView, Policy};
use crate::engine::{Decision, Rejection};
use crate::state::{
    actives, admitted, attempted, begun, begun_inside, completed, consistent, deadline_from,
    detached, family, in_budget, initial, inside, level_at, lined_up, needed, outer, outside, polled,
    queued, reconfiguration, rule, running, running_requests, sound, stopped, swept, tally,
    waiting_requests, waits, with_level, with_room, Stage, State,
};
use crate::upkeep::{
    lemma_attempted_sound, lemma_detached_sound, lemma_family, lemma_filter, lemma_leaving, lemma_level_at,
    lemma_not_in_line, lemma_polled_sound, lemma_queued_sound, lemma_running, lemma_swept_sound,
};
use vstd::prelude::*;

verus! {

// ---------------------------------------------------------------------------
// One attempt

/// The request is live and free to start an attempt.
pub open spec fn may_attempt(s: State, id: Seq<char>) -> bool {
    !s.stopping && s.requests.dom().contains(id) && !(s.requests[id] is Queued)
}

/// The state in which an attempt is placed.
pub open spec fn ground(s: State, id: Seq<char>, key: Seq<char>, now: Instant) -> State {
    with_room(detached(s, id), key, now)
}

/// A bucket that is up to date stays as it is.
proof fn lemma_refilled_now(s: State, key: Seq<char>, now: Instant)
    requires
        sound(s),
    ensures
        refilled(rule(s, key), level_at(s, key, now), now) == level_at(s, key, now),
{
    lemma_level_at(s, key, now);
    let rate = rule(s, key).requests_per_minute as int;
    assert(0 * rate == 0) by (nonlinear_arith);
}

/// What an attempt finds is the credential's bucket as it was, brought up to date.
pub proof fn lemma_ground(s: State, id: Seq<char>, key: Seq<char>, now: Instant)
    requires
        consistent(s),
        may_attempt(s, id),
    ensures
        sound(ground(s, id, key, now)),
        ground(s, id, key, now).requests == s.requests.insert(id, Stage::Idle),
        ground(s, id, key, now).config == s.config,
        ground(s, id, key, now).parents == s.parents,
        !ground(s, id, key, now).stopping,
        level_at(ground(s, id, key, now), key, now) == level_at(s, key, now),
        detached(s, id).buckets == s.buckets,
{
    lemma_detached_sound(s, id);
    lemma_swept_sound(detached(s, id), now);
    assert(detached(s, id).requests =~= s.requests.insert(id, Stage::Idle));
}

/// A request that joins the line waits there, or is out of time at once: the line
/// was occupied, or nothing was available.
proof fn lemma_joining_waits(s: State, id: Seq<char>, key: Seq<char>, now: Instant)
    requires
        sound(s),
        !s.stopping,
        s.requests.dom().contains(id),
        s.requests[id] is Idle,
        rule(s, key).enabled,
        now.readable(),
        !(level_at(s, key, now).queue.len() == 0 && available(
            rule(s, key),
            level_at(s, key, now).tokens,
            running(s.requests, key),
        )),
    ensures
        ({
            let level = level_at(s, key, now);
            let deadline = deadline_from(rule(s, key), now);
            let line = queued(s, id, key, level, deadline);
            let next = polled(line, id, now);
            if now.nanos >= deadline.nanos {
                &&& next.1 == Decision::Reject(Rejection::QueueTimeout)
                &&& next.0.requests[id] is Idle
                &&& next.0.buckets == s.buckets.insert(key, level)
                &&& next.0.requests == s.requests
            } else {
                &&& next.1 is WaitUntil
                &&& now.nanos < next.1->WaitUntil_0.nanos <= deadline.nanos
                &&& next.0 == line
            }
        }),
{
    let level = level_at(s, key, now);
    let policy = rule(s, key);
    let deadline = deadline_from(policy, now);
    let line = queued(s, id, key, level, deadline);
    lemma_level_at(s, key, now);
    lemma_refilled_now(s, key, now);
    lemma_queued_sound(s, id, key, level, deadline);
    lemma_running(s.requests, id, Stage::Queued(key, deadline), key);
    if s.buckets.dom().contains(key) {
        lemma_not_in_line(s, id, key);
    }
    assert(!level.queue.contains(id));
    let joined = level.queue.push(id);
    assert(line.requests[id] == Stage::Queued(key, deadline));
    assert(line.buckets[key].queue == joined);
    if now.nanos >= deadline.nanos {
        lemma_filter(joined, other_than(id));
        assert(leaving(joined, id) == level.queue) by {
            reveal(Seq::filter);
            assert(joined.drop_last() == level.queue);
            lemma_leaving(level.queue, id);
        }
        let next = polled(line, id, now).0;
        assert(next.buckets =~= s.buckets.insert(key, level));
        assert(next.requests =~= s.requests);
    } else {
        let fill = refilled(policy, line.buckets[key], now);
        assert(fill == line.buckets[key]);
        if joined[0] == id {
            if level.queue.len() > 0 {
                assert(level.queue[0] == id);
            }
        }
        law_wake_time(policy, level.tokens, now, deadline);
        assert(line.buckets.insert(key, fill) =~= line.buckets);
    }
}

/// Where an attempt on a credential with a policy ends up.
pub proof fn lemma_attempt_cases(s: State, id: Seq<char>, key: Seq<char>, now: Instant)
    requires
        consistent(s),
        may_attempt(s, id),
        rule(s, key).enabled,
        now.readable(),
    ensures
        ({
            let (next, decision) = attempted(s, id, key, now);
            let base = ground(s, id, key, now);
            let level = level_at(s, key, now);
            let policy = rule(s, key);
            let deadline = deadline_from(policy, now);
            match decision {
                Decision::Admit => {
                    &&& level.queue.len() == 0
                    &&& available(policy, level.tokens, running(base.requests, key))
                    &&& next == admitted(base, id, key, level)
                },
                Decision::WaitUntil(wake) => {
                    &&& level.queue.len() < policy.max_queue
                    &&& next == queued(base, id, key, level, deadline)
                    &&& now.nanos < wake.nanos <= deadline.nanos
                },
                Decision::Reject(Rejection::Capacity) => {
                    &&& !s.buckets.dom().contains(key)
                    &&& base.buckets.len() >= s.config.max_credentials
                    &&& next == base
                },
                Decision::Reject(reason) => {
                    &&& reason == Rejection::QueueFull ==> level.queue.len() >= policy.max_queue
                    &&& reason == Rejection::QueueFull || reason == Rejection::QueueTimeout
                    &&& next == with_level(base, key, level)
                },
            }
        }),
        ground(s, id, key, now).buckets.dom().contains(key) || ground(s, id, key, now).buckets.len()
            < s.config.max_credentials || attempted(s, id, key, now).1 == Decision::Reject(
            Rejection::Capacity,
        ),
        s.buckets.dom().contains(key) <==> ground(s, id, key, now).buckets.dom().contains(key),
{
    lemma_ground(s, id, key, now);
    let base = ground(s, id, key, now);
    let level = level_at(s, key, now);
    let policy = rule(s, key);
    if !(!base.buckets.dom().contains(key) && base.buckets.len() >= s.config.max_credentials) {
        if !(level.queue.len() == 0 && available(
            policy,
            level.tokens,
            running(base.requests, key),
        )) && level.queue.len() < policy.max_queue {
            lemma_joining_waits(base, id, key, now);
            let deadline = deadline_from(policy, now);
            let next = polled(queued(base, id, key, level, deadline), id, now).0;
            if now.nanos >= deadline.nanos {
                assert(next == with_level(base, key, level));
            }
        }
    }
}

/// New requests cannot pass those that wait: an attempt is admitted on arrival
/// only where nobody is in line for its credential.
pub proof fn law_no_barging(s: State, id: Seq<char>, key: Seq<char>, now: Instant)
    requires
        consistent(s),
        now.readable(),
        rule(s, key).enabled,
        attempted(s, id, key, now).1 == Decision::Admit,
    ensures
        s.buckets.dom().contains(key) ==> s.buckets[key].queue.len() == 0,
{
    lemma_attempt_cases(s, id, key, now);
}

/// Of those in line only the first is admitted.
pub proof fn law_first_in_line_goes_first(s: State, id: Seq<char>, key: Seq<char>, now: Instant)
    requires
        consistent(s),
        waits(s, id, key),
        rule(s, key).enabled,
        polled(s, id, now).1 == Decision::Admit,
    ensures
        s.buckets[key].queue[0] == id,
        polled(s, id, now).0.buckets[key].queue == s.buckets[key].queue.drop_first(),
{
}

/// Nobody overtakes: who stands behind another request in line is not admitted
/// while that one stands there.
pub proof fn law_nobody_overtakes(s: State, key: Seq<char>, i: int, j: int, now: Instant)
    requires
        consistent(s),
        s.buckets.dom().contains(key),
        0 <= i < j < s.buckets[key].queue.len(),
        rule(s, key).enabled,
    ensures
        polled(s, s.buckets[key].queue[j], now).1 != Decision::Admit,
{
    assert(lined_up(s, key));
    let line = s.buckets[key].queue;
    assert(waits(s, line[j], key));
    assert(line[0] != line[j]);
}

/// The attempts on a credential stay within its limit, whatever requests begin, try,
/// look and end: only a configuration with a lower limit can leave more of them
/// running.
pub proof fn law_concurrency_stays_limited(
    s: State,
    id: Seq<char>,
    key: Seq<char>,
    parent: Seq<char>,
    now: Instant,
    other: Seq<char>,
)
    requires
        consistent(s),
        now.readable(),
        running(s.requests, other) <= rule(s, other).max_concurrency,
        rule(s, other).max_concurrency > 0,
    ensures
        running(begun(s, id).0.requests, other) <= rule(s, other).max_concurrency,
        running(begun_inside(s, id, parent).0.requests, other) <= rule(s, other).max_concurrency,
        running(attempted(s, id, key, now).0.requests, other) <= rule(s, other).max_concurrency,
        running(polled(s, id, now).0.requests, other) <= rule(s, other).max_concurrency,
        running(completed(s, id).requests, other) <= rule(s, other).max_concurrency,
{
    let idle = s.requests.insert(id, Stage::Idle);
    lemma_running(s.requests, id, Stage::Idle, other);
    if may_attempt(s, id) {
        lemma_ground(s, id, key, now);
        if rule(s, key).enabled {
            lemma_attempt_cases(s, id, key, now);
            lemma_running(idle, id, Stage::Active(key), other);
            lemma_running(idle, id, Stage::Queued(key, deadline_from(rule(s, key), now)), other);
        }
    }
    if s.requests.dom().contains(id) && s.requests[id] is Queued {
        lemma_running(s.requests, id, Stage::Active(s.requests[id]->Queued_0), other);
    }
    let ended = completed(s, id);
    assert(actives(ended.requests, other).subset_of(actives(s.requests, other)));
    vstd::set_lib::lemma_len_subset(actives(ended.requests, other), actives(s.requests, other));
}

/// Who finds nobody in line, and room to run, is admitted at once.
pub proof fn law_free_credentials_admit(s: State, id: Seq<char>, key: Seq<char>, now: Instant)
    requires
        consistent(s),
        may_attempt(s, id),
        rule(s, key).enabled,
        s.buckets.dom().contains(key),
        s.buckets[key].queue.len() == 0,
        available(
            rule(s, key),
            level_at(s, key, now).tokens,
            running(s.requests.insert(id, Stage::Idle), key),
        ),
    ensures
        attempted(s, id, key, now).1 == Decision::Admit,
{
    lemma_ground(s, id, key, now);
}

/// A credential that was not used yet admits, as long as there is room for one more.
pub proof fn law_new_credentials_admit(s: State, id: Seq<char>, key: Seq<char>, now: Instant)
    requires
        consistent(s),
        may_attempt(s, id),
        rule(s, key).enabled,
        rule(s, key).burst > 0,
        !s.buckets.dom().contains(key),
        s.buckets.len() < s.config.max_credentials,
    ensures
        attempted(s, id, key, now).1 == Decision::Admit,
{
    lemma_ground(s, id, key, now);
    lemma_detached_sound(s, id);
    lemma_swept_sound(detached(s, id), now);
    let base = ground(s, id, key, now);
    assert(actives(base.requests, key) =~= Set::empty()) by {
        assert forall|x: Seq<char>| !actives(base.requests, key).contains(x) by {
            if base.requests.dom().contains(x) && x != id {
                assert(s.requests.dom().contains(x));
            }
        }
    }
}

/// The first in line is admitted as soon as there is room to run: when a slot is
/// free, when a token is due, or when a new configuration makes room.
pub proof fn law_first_in_line_is_served(s: State, id: Seq<char>, key: Seq<char>, now: Instant)
    requires
        consistent(s),
        !s.stopping,
        waits(s, id, key),
        now.nanos < s.requests[id]->Queued_1.nanos,
        rule(s, key).enabled,
        s.buckets[key].queue[0] == id,
        available(rule(s, key), level_at(s, key, now).tokens, running(s.requests, key)),
    ensures
        polled(s, id, now).1 == Decision::Admit,
        polled(s, id, now).0.requests[id] == Stage::Active(key),
{
    assert(s.buckets[key].queue.len() > 0);
}

/// Where no line is allowed, nobody waits: an attempt that cannot run is refused.
pub proof fn law_without_a_line_nobody_waits(s: State, id: Seq<char>, key: Seq<char>, now: Instant)
    requires
        consistent(s),
        now.readable(),
        rule(s, key).max_queue == 0,
    ensures
        !(attempted(s, id, key, now).1 is WaitUntil),
{
    if may_attempt(s, id) && rule(s, key).enabled {
        lemma_attempt_cases(s, id, key, now);
    }
}

/// A limit of zero is none: without a rate limit no budget is asked for, and
/// without a limit on running attempts none are counted.
pub proof fn law_zero_switches_a_limit_off(policy: Policy, tokens: int, running: int)
    ensures
        policy.requests_per_minute == 0 ==> available(policy, tokens, running) == (
        policy.max_concurrency == 0 || running < policy.max_concurrency),
        policy.max_concurrency == 0 ==> available(policy, tokens, running) == (
        policy.requests_per_minute == 0 || tokens >= TOKEN),
{
}

/// A running attempt is left alone, for however long it runs.
pub proof fn law_running_attempts_are_left_alone(s: State, id: Seq<char>, key: Seq<char>, now: Instant)
    requires
        !s.stopping,
        s.requests.dom().contains(id),
        s.requests[id] == Stage::Active(key),
    ensures
        polled(s, id, now) == (s, Decision::Admit),
{
}

/// What one request does moves no other request.
pub proof fn law_others_stay_where_they_are(
    s: State,
    id: Seq<char>,
    other: Seq<char>,
    key: Seq<char>,
    parent: Seq<char>,
    now: Instant,
)
    requires
        consistent(s),
        now.readable(),
        other != id,
        s.requests.dom().contains(other),
    ensures
        begun(s, id).0.requests.dom().contains(other),
        begun(s, id).0.requests[other] == s.requests[other],
        begun_inside(s, id, parent).0.requests.dom().contains(other),
        begun_inside(s, id, parent).0.requests[other] == s.requests[other],
        attempted(s, id, key, now).0.requests.dom().contains(other),
        attempted(s, id, key, now).0.requests[other] == s.requests[other],
        polled(s, id, now).0.requests.dom().contains(other),
        polled(s, id, now).0.requests[other] == s.requests[other],
{
    if may_attempt(s, id) {
        lemma_ground(s, id, key, now);
        if rule(s, key).enabled {
            lemma_attempt_cases(s, id, key, now);
        }
    }
}

/// An admission on arrival pays one token, where the rate is limited, and leaves
/// no more attempts running than the limit, where there is one.
pub proof fn law_admission_pays(s: State, id: Seq<char>, key: Seq<char>, now: Instant)
    requires
        consistent(s),
        now.readable(),
        rule(s, key).enabled,
        attempted(s, id, key, now).1 == Decision::Admit,
    ensures
        ({
            let next = attempted(s, id, key, now).0;
            let policy = rule(s, key);
            let budget = level_at(s, key, now).tokens;
            &&& next.requests[id] == Stage::Active(key)
            &&& policy.max_concurrency > 0 ==> running(next.requests, key) <= policy.max_concurrency
            &&& policy.requests_per_minute > 0 ==> budget >= TOKEN && next.buckets[key].tokens
                == budget - TOKEN
        }),
{
    lemma_attempt_cases(s, id, key, now);
    lemma_ground(s, id, key, now);
    let base = ground(s, id, key, now);
    lemma_running(base.requests, id, Stage::Active(key), key);
}

/// An admission from the line pays one token, where the rate is limited, and
/// leaves no more attempts running than the limit, where there is one.
pub proof fn law_admission_from_the_line_pays(s: State, id: Seq<char>, key: Seq<char>, now: Instant)
    requires
        consistent(s),
        waits(s, id, key),
        rule(s, key).enabled,
        polled(s, id, now).1 == Decision::Admit,
    ensures
        ({
            let next = polled(s, id, now).0;
            let policy = rule(s, key);
            let budget = level_at(s, key, now).tokens;
            &&& next.requests[id] == Stage::Active(key)
            &&& policy.max_concurrency > 0 ==> running(next.requests, key) <= policy.max_concurrency
            &&& policy.requests_per_minute > 0 ==> budget >= TOKEN && next.buckets[key].tokens
                == budget - TOKEN
        }),
{
    lemma_running(s.requests, id, Stage::Active(key), key);
}

/// Waiting and being turned away cost nothing: an attempt that is not admitted
/// leaves every budget as it was or brings it up to date.
pub proof fn law_only_admission_costs(s: State, id: Seq<char>, key: Seq<char>, now: Instant, other: Seq<char>)
    requires
        consistent(s),
        now.readable(),
        attempted(s, id, key, now).1 != Decision::Admit,
        attempted(s, id, key, now).0.buckets.dom().contains(other),
    ensures
        ({
            let after = attempted(s, id, key, now).0.buckets[other].tokens;
            after == level_at(s, other, now).tokens || (s.buckets.dom().contains(other) && after
                == s.buckets[other].tokens)
        }),
{
    if may_attempt(s, id) {
        if rule(s, key).enabled {
            lemma_attempt_cases(s, id, key, now);
            lemma_ground(s, id, key, now);
        }
    }
}

/// Looking again costs nothing without admission.
pub proof fn law_looking_costs_nothing(s: State, id: Seq<char>, now: Instant, other: Seq<char>)
    requires
        consistent(s),
        polled(s, id, now).1 != Decision::Admit,
        s.buckets.dom().contains(other),
    ensures
        ({
            let after = polled(s, id, now).0.buckets[other].tokens;
            after == level_at(s, other, now).tokens || after == s.buckets[other].tokens
        }),
{
}

/// An attempt moves nobody in line: a line stays as it is, or the request joins
/// its own line at the end.
pub proof fn law_attempts_keep_the_line(s: State, id: Seq<char>, key: Seq<char>, now: Instant, other: Seq<char>)
    requires
        consistent(s),
        now.readable(),
        s.buckets.dom().contains(other),
        s.buckets[other].queue.len() > 0,
    ensures
        ({
            let (next, decision) = attempted(s, id, key, now);
            &&& next.buckets.dom().contains(other)
            &&& next.buckets[other].queue == if decision is WaitUntil && other == key {
                s.buckets[other].queue.push(id)
            } else {
                s.buckets[other].queue
            }
        }),
{
    if may_attempt(s, id) {
        lemma_ground(s, id, key, now);
        if rule(s, key).enabled {
            lemma_attempt_cases(s, id, key, now);
            assert(needed(detached(s, id), other, now));
        }
    }
}

/// Looking again moves nobody in line, but for who looks: it stays where it is, or
/// leaves.
pub proof fn law_looking_keeps_the_line(s: State, id: Seq<char>, now: Instant, other: Seq<char>)
    requires
        consistent(s),
        s.buckets.dom().contains(other),
    ensures
        ({
            let after = polled(s, id, now).0.buckets[other].queue;
            after == s.buckets[other].queue || after == leaving(s.buckets[other].queue, id)
        }),
{
    assert(lined_up(s, other));
    let line = s.buckets[other].queue;
    if line.len() > 0 && line[0] == id {
        lemma_first_is_left(line);
    }
}

/// Without its first, a line is what is left when the first leaves.
proof fn lemma_first_is_left(line: Seq<Seq<char>>)
    requires
        line.len() > 0,
        line.no_duplicates(),
    ensures
        leaving(line, line[0]) == line.drop_first(),
    decreases line.len(),
{
    reveal(Seq::filter);
    if line.len() == 1 {
        assert(line.drop_last().filter(other_than(line[0])) =~= Seq::empty());
        assert(leaving(line, line[0]) =~= Seq::empty());
        assert(line.drop_first() =~= Seq::empty());
    } else {
        let front = line.drop_last();
        assert(front[0] == line[0]);
        lemma_first_is_left(front);
        assert(line.last() != line[0]);
        assert(line.drop_first() =~= front.drop_first().push(line.last()));
    }
}

/// Who waits does not wait for ever: the next look is later than now and not after
/// the deadline, and from the deadline on the request is turned away and out of
/// the line.
pub proof fn law_waiting_ends(s: State, id: Seq<char>, key: Seq<char>, now: Instant)
    requires
        consistent(s),
        waits(s, id, key),
        !s.stopping,
    ensures
        ({
            let deadline = s.requests[id]->Queued_1;
            let (next, decision) = polled(s, id, now);
            if now.nanos >= deadline.nanos {
                &&& decision == Decision::Reject(Rejection::QueueTimeout)
                &&& next.requests[id] is Idle
                &&& !next.buckets[key].queue.contains(id)
            } else {
                &&& !(decision is Reject)
                &&& decision is WaitUntil ==> now.nanos < decision->WaitUntil_0.nanos
                    <= deadline.nanos && next.requests[id] == s.requests[id]
            }
        }),
{
    let deadline = s.requests[id]->Queued_1;
    lemma_leaving(s.buckets[key].queue, id);
    if now.nanos < deadline.nanos {
        law_wake_time(rule(s, key), level_at(s, key, now).tokens, now, deadline);
    }
}

/// A request waits no longer than its policy allows.
pub proof fn law_wait_is_limited(s: State, id: Seq<char>, key: Seq<char>, now: Instant)
    requires
        consistent(s),
        now.readable(),
        rule(s, key).enabled,
        attempted(s, id, key, now).1 is WaitUntil,
    ensures
        ({
            let (next, decision) = attempted(s, id, key, now);
            &&& waits(next, id, key)
            &&& next.requests[id]->Queued_1.nanos == now.nanos + rule(s, key).queue_timeout_ms
                * MILLI
            &&& now.nanos < decision->WaitUntil_0.nanos <= next.requests[id]->Queued_1.nanos
        }),
{
    lemma_attempt_cases(s, id, key, now);
}

/// A request that waits and tries again keeps its place, and nothing else changes.
pub proof fn law_second_wait_is_refused(s: State, id: Seq<char>, key: Seq<char>, other: Seq<char>, now: Instant)
    requires
        waits(s, id, key),
        !s.stopping,
    ensures
        attempted(s, id, other, now) == (s, Decision::Reject(Rejection::DuplicateWait)),
{
}

/// A retry gives up the slot of the attempt before it, and counts again only where
/// it is admitted again.
pub proof fn law_retry_frees_the_slot(s: State, id: Seq<char>, old_key: Seq<char>, key: Seq<char>, now: Instant)
    requires
        consistent(s),
        now.readable(),
        !s.stopping,
        s.requests.dom().contains(id),
        s.requests[id] == Stage::Active(old_key),
    ensures
        ({
            let next = attempted(s, id, key, now).0;
            running(next.requests, old_key) == running(s.requests, old_key) - 1 + (if next.requests[id]
                == Stage::Active(old_key) {
                1int
            } else {
                0
            })
        }),
{
    lemma_ground(s, id, key, now);
    lemma_running(s.requests, id, Stage::Idle, old_key);
    let idle = s.requests.insert(id, Stage::Idle);
    if rule(s, key).enabled {
        lemma_attempt_cases(s, id, key, now);
        let (next, decision) = attempted(s, id, key, now);
        match decision {
            Decision::Admit => {
                lemma_running(idle, id, Stage::Active(key), old_key);
            },
            Decision::WaitUntil(_) => {
                lemma_running(idle, id, Stage::Queued(key, deadline_from(rule(s, key), now)), old_key);
            },
            _ => {},
        }
    } else {
        assert(detached(s, id).requests == idle);
    }
}

/// Where the policy of a credential is switched off, an attempt on it is admitted
/// and counts nowhere.
pub proof fn law_disabled_policy_lets_pass(s: State, id: Seq<char>, key: Seq<char>, now: Instant)
    requires
        may_attempt(s, id),
        !rule(s, key).enabled,
    ensures
        attempted(s, id, key, now) == (detached(s, id), Decision::Admit),
        attempted(s, id, key, now).0.requests[id] is Idle,
{
}

/// Where the policy of a credential is switched off, who waits for it goes on.
pub proof fn law_disabled_policy_frees_the_line(s: State, id: Seq<char>, key: Seq<char>, now: Instant)
    requires
        consistent(s),
        !s.stopping,
        waits(s, id, key),
        now.nanos < s.requests[id]->Queued_1.nanos,
        !rule(s, key).enabled,
    ensures
        polled(s, id, now).1 == Decision::Admit,
        polled(s, id, now).0.requests == s.requests.insert(id, Stage::Idle),
        polled(s, id, now).0.buckets[key].queue == leaving(s.buckets[key].queue, id),
{
}

// ---------------------------------------------------------------------------
// Credentials

/// Credentials are independent: an attempt on one leaves to every later attempt on
/// another the bucket that it would have found.
pub proof fn law_other_credentials_are_untouched(
    s: State,
    id: Seq<char>,
    key: Seq<char>,
    now: Instant,
    other: Seq<char>,
    later: Instant,
)
    requires
        consistent(s),
        now.readable(),
        other != key,
        now.nanos <= later.nanos,
        s.buckets.dom().contains(other) ==> s.buckets[other].updated.nanos <= now.nanos,
    ensures
        ({
            let next = attempted(s, id, key, now).0;
            &&& level_at(next, other, later) == level_at(s, other, later)
            &&& !(s.requests.dom().contains(id) && s.requests[id] == Stage::Active(other))
                ==> running(next.requests, other) == running(s.requests, other)
        }),
{
    if may_attempt(s, id) {
        lemma_ground(s, id, key, now);
        let free = detached(s, id);
        let base = ground(s, id, key, now);
        let idle = s.requests.insert(id, Stage::Idle);
        lemma_running(s.requests, id, Stage::Idle, other);
        let next = attempted(s, id, key, now).0;
        assert(level_at(base, other, later) == level_at(s, other, later)) by {
            if s.buckets.dom().contains(other) {
                assert(in_budget(s, other));
                law_refill_is_steady(rule(s, other), s.buckets[other], now, later);
                if !base.buckets.dom().contains(other) {
                    lemma_detached_sound(s, id);
                    law_sweeping_keeps_debt(free, other, now, later);
                }
            }
        }
        if rule(s, key).enabled {
            lemma_attempt_cases(s, id, key, now);
            lemma_running(idle, id, Stage::Active(key), other);
            lemma_running(idle, id, Stage::Queued(key, deadline_from(rule(s, key), now)), other);
        }
    }
}

/// Looking again for one credential leaves every other one as it is.
pub proof fn law_looking_leaves_other_credentials(
    s: State,
    id: Seq<char>,
    key: Seq<char>,
    now: Instant,
    other: Seq<char>,
)
    requires
        consistent(s),
        waits(s, id, key),
        other != key,
        s.buckets.dom().contains(other),
    ensures
        polled(s, id, now).0.buckets.dom().contains(other),
        polled(s, id, now).0.buckets[other] == s.buckets[other],
        running(polled(s, id, now).0.requests, other) == running(s.requests, other),
{
    lemma_running(s.requests, id, Stage::Idle, other);
    lemma_running(s.requests, id, Stage::Active(key), other);
}

/// A bucket is left out only when it is idle and full, so that a new one in its
/// place is the same at every later time: no debt is forgotten.
pub proof fn law_sweeping_keeps_debt(s: State, key: Seq<char>, now: Instant, later: Instant)
    requires
        sound(s),
        s.buckets.dom().contains(key),
        !swept(s, now).buckets.dom().contains(key),
        now.nanos <= later.nanos,
    ensures
        running(s.requests, key) == 0,
        refilled(rule(s, key), s.buckets[key], later) == fresh(rule(s, key), later),
        level_at(swept(s, now), key, later) == level_at(s, key, later),
{
    assert(in_budget(s, key));
    let policy = rule(s, key);
    let level = s.buckets[key];
    assert(!needed(s, key, now));
    law_refill_is_bounded(policy, level, now);
    law_refill_is_bounded(policy, level, later);
    let rate = policy.requests_per_minute as int;
    let a = elapsed(level.updated, now);
    let b = elapsed(level.updated, later);
    assert(a * rate <= b * rate) by (nonlinear_arith)
        requires
            a <= b,
            rate >= 0,
    ;
    assert(level.queue =~= Seq::empty());
}

/// No more credentials are kept than the configuration allows.
pub proof fn law_buckets_are_bounded(s: State, id: Seq<char>, key: Seq<char>, now: Instant)
    requires
        consistent(s),
        now.readable(),
    ensures
        ({
            let next = attempted(s, id, key, now).0;
            next.buckets.len() <= s.buckets.len() || next.buckets.len() <= s.config.max_credentials
        }),
{
    if may_attempt(s, id) {
        lemma_ground(s, id, key, now);
        lemma_detached_sound(s, id);
        lemma_swept_sound(detached(s, id), now);
        if rule(s, key).enabled {
            lemma_attempt_cases(s, id, key, now);
        }
    }
}

/// No more requests wait for a credential than its policy allows.
pub proof fn law_lines_are_bounded(s: State, id: Seq<char>, key: Seq<char>, now: Instant)
    requires
        consistent(s),
        now.readable(),
        rule(s, key).enabled,
        attempted(s, id, key, now).1 is WaitUntil,
    ensures
        attempted(s, id, key, now).0.buckets[key].queue.len() <= rule(s, key).max_queue,
{
    lemma_attempt_cases(s, id, key, now);
}

// ---------------------------------------------------------------------------
// Registration and completion

/// No more requests are registered than the configuration allows.
pub proof fn law_requests_are_bounded(s: State, id: Seq<char>)
    requires
        consistent(s),
    ensures
        begun(s, id).0.requests.len() <= s.requests.len() || begun(s, id).0.requests.len()
            <= s.config.max_tracked_requests,
{
}

/// A request that is registered again stays as it is.
pub proof fn law_registering_again_changes_nothing(s: State, id: Seq<char>)
    requires
        !s.stopping,
        begun(s, id).1 is Ok,
    ensures
        begun(begun(s, id).0, id) == (begun(s, id).0, Ok::<(), Rejection>(())),
{
}

/// Of the family of a request that is not live nothing is live.
proof fn lemma_family_of_the_dead(s: State, id: Seq<char>, x: Seq<char>)
    requires
        consistent(s),
        !s.requests.dom().contains(id),
        family(s.parents, id).contains(x),
    ensures
        x == id,
{
    let n = choose|n: nat| #[trigger] outer(s.parents, x, n) == Some(id);
    lemma_outer_is_live(s, x, n);
}

/// Every step outwards leads to a live request.
proof fn lemma_outer_is_live(s: State, x: Seq<char>, n: nat)
    requires
        consistent(s),
        outer(s.parents, x, n) is Some,
    ensures
        n > 0 ==> s.requests.dom().contains(outer(s.parents, x, n)->Some_0),
    decreases n,
{
    if n > 0 {
        assert(s.parents.dom().contains(x));
        lemma_outer_is_live(s, s.parents[x], (n - 1) as nat);
    }
}

/// The end of a request that is not live changes nothing, so an end that is
/// announced twice does no harm.
pub proof fn law_unknown_end_is_harmless(s: State, id: Seq<char>)
    requires
        consistent(s),
        !s.requests.dom().contains(id),
    ensures
        completed(s, id) == s,
{
    let gone = family(s.parents, id);
    let next = completed(s, id);
    lemma_family(s.parents, id);
    assert forall|x: Seq<char>| gone.contains(x) implies x == id by {
        lemma_family_of_the_dead(s, id, x);
    }
    assert(next.requests =~= s.requests);
    assert(next.parents =~= s.parents);
    assert forall|key: Seq<char>| s.buckets.dom().contains(key) implies next.buckets[key]
        == #[trigger] s.buckets[key] by {
        let line = s.buckets[key].queue;
        assert(lined_up(s, key));
        assert forall|x: Seq<char>| line.contains(x) implies #[trigger] outside(gone)(x) by {
            let i = choose|i: int| 0 <= i < line.len() && line[i] == x;
            assert(waits(s, s.buckets[key].queue[i], key));
        }
        lemma_filter(line, outside(gone));
    }
    assert(next.buckets =~= s.buckets);
}

/// A second end of the same request changes nothing.
pub proof fn law_second_end_is_harmless(s: State, id: Seq<char>)
    requires
        consistent(s),
    ensures
        completed(completed(s, id), id) == completed(s, id),
{
    lemma_family(s.parents, id);
    crate::upkeep::law_complete_keeps_consistency(s, id);
    law_unknown_end_is_harmless(completed(s, id), id);
}

/// A request that ended, or was nested in one that did, does not come back by a
/// late call: neither by an attempt nor by a look nor as the outer one of another.
pub proof fn law_ended_requests_stay_ended(
    s: State,
    id: Seq<char>,
    x: Seq<char>,
    key: Seq<char>,
    child: Seq<char>,
    now: Instant,
)
    requires
        inside(s.parents, x, id),
        !s.stopping,
    ensures
        ({
            let next = completed(s, id);
            &&& !next.requests.dom().contains(x)
            &&& attempted(next, x, key, now) == (next, Decision::Reject(Rejection::RequestEnded))
            &&& polled(next, x, now) == (next, Decision::Reject(Rejection::RequestEnded))
            &&& begun_inside(next, child, x) == (
                next,
                Err::<(), Rejection>(Rejection::RequestEnded),
            )
        }),
{
    assert(family(s.parents, id).contains(x));
}

/// A request that is nested in another one ends with it.
pub proof fn law_nested_requests_end_with_the_outer_one(s: State, child: Seq<char>, parent: Seq<char>)
    requires
        consistent(s),
        begun_inside(s, child, parent).1 is Ok,
    ensures
        ({
            let next = begun_inside(s, child, parent).0;
            &&& s.requests.dom().contains(parent)
            &&& next.requests.dom().contains(child)
            &&& !completed(next, parent).requests.dom().contains(child)
            &&& !completed(next, parent).requests.dom().contains(parent)
        }),
{
    let next = begun_inside(s, child, parent).0;
    lemma_family(next.parents, parent);
    assert(next.parents.dom().contains(child) && next.parents[child] == parent);
    assert(family(next.parents, parent).contains(next.parents[child]));
}

/// The end of a request frees its slot and its place in line, gives no token back
/// and leaves every request outside its family where it was.
pub proof fn law_completion_frees_and_refunds_nothing(s: State, id: Seq<char>, key: Seq<char>, x: Seq<char>)
    requires
        consistent(s),
        s.buckets.dom().contains(key),
    ensures
        ({
            let next = completed(s, id);
            &&& next.buckets.dom().contains(key)
            &&& next.buckets[key].tokens == s.buckets[key].tokens
            &&& next.buckets[key].updated == s.buckets[key].updated
            &&& !next.buckets[key].queue.contains(id)
            &&& s.requests.dom().contains(id) && s.requests[id] == Stage::Active(key) ==> running(
                next.requests,
                key,
            ) < running(s.requests, key)
            &&& s.requests.dom().contains(x) && !inside(s.parents, x, id)
                ==> next.requests.dom().contains(x) && next.requests[x] == s.requests[x]
        }),
{
    let gone = family(s.parents, id);
    let next = completed(s, id);
    lemma_family(s.parents, id);
    lemma_filter(s.buckets[key].queue, outside(gone));
    lemma_running(s.requests, id, Stage::Idle, key);
    if s.requests.dom().contains(id) && s.requests[id] == Stage::Active(key) {
        let rest = actives(s.requests, key).remove(id);
        assert(actives(next.requests, key).subset_of(rest));
        vstd::set_lib::lemma_len_subset(actives(next.requests, key), rest);
    }
}

/// Who is first in a line, and stays, is first in what is left of it.
proof fn lemma_first_stays(line: Seq<Seq<char>>, keep: spec_fn(Seq<char>) -> bool)
    requires
        line.len() > 0,
        keep(line[0]),
    ensures
        line.filter(keep).len() > 0,
        line.filter(keep)[0] == line[0],
    decreases line.len(),
{
    reveal(Seq::filter);
    if line.len() > 1 {
        lemma_first_stays(line.drop_last(), keep);
    } else {
        assert(line.drop_last().filter(keep) =~= Seq::empty());
        assert(line.last() == line[0]);
    }
}

/// The end of a running attempt lets the first in line go on at its next look: the
/// slot is free, and the budget, where there is one, pays for it.
pub proof fn law_completion_serves_the_line(
    s: State,
    ending: Seq<char>,
    id: Seq<char>,
    key: Seq<char>,
    now: Instant,
)
    requires
        consistent(s),
        !s.stopping,
        s.requests.dom().contains(ending),
        s.requests[ending] == Stage::Active(key),
        waits(s, id, key),
        !inside(s.parents, id, ending),
        s.buckets[key].queue[0] == id,
        now.nanos < s.requests[id]->Queued_1.nanos,
        rule(s, key).enabled,
        rule(s, key).max_concurrency == 0 || running(s.requests, key) <= rule(
            s,
            key,
        ).max_concurrency,
        rule(s, key).requests_per_minute == 0 || level_at(s, key, now).tokens >= TOKEN,
    ensures
        ({
            let (next, decision) = polled(completed(s, ending), id, now);
            &&& decision == Decision::Admit
            &&& next.requests[id] == Stage::Active(key)
            &&& !next.requests.dom().contains(ending)
        }),
{
    let gone = family(s.parents, ending);
    let freed = completed(s, ending);
    lemma_family(s.parents, ending);
    assert(s.buckets[key].queue.contains(id));
    law_completion_frees_and_refunds_nothing(s, ending, key, id);
    lemma_first_stays(s.buckets[key].queue, outside(gone));
    crate::upkeep::law_complete_keeps_consistency(s, ending);
    law_first_in_line_is_served(freed, id, key, now);
    lemma_polled_sound(freed, id, now);
}

/// A request that waits is answered at its next look when it ends, and when the
/// engine stops; either way it is out of the line.
pub proof fn law_waiting_requests_are_answered(
    s: State,
    id: Seq<char>,
    key: Seq<char>,
    now: Instant,
)
    requires
        consistent(s),
        !s.stopping,
        waits(s, id, key),
    ensures
        polled(completed(s, id), id, now).1 == Decision::Reject(Rejection::RequestEnded),
        !completed(s, id).buckets[key].queue.contains(id),
        polled(stopped(s), id, now).1 == Decision::Reject(Rejection::Stopping),
        polled(stopped(s), id, now).0.requests[id] is Idle,
        !polled(stopped(s), id, now).0.buckets[key].queue.contains(id),
{
    lemma_family(s.parents, id);
    law_completion_frees_and_refunds_nothing(s, id, key, id);
    lemma_leaving(s.buckets[key].queue, id);
}

/// The state after the ends of some requests.
pub open spec fn all_ended(s: State, ids: Seq<Seq<char>>) -> State
    decreases ids.len(),
{
    if ids.len() == 0 {
        s
    } else {
        completed(all_ended(s, ids.drop_last()), ids.last())
    }
}

proof fn lemma_all_ended(s: State, ids: Seq<Seq<char>>)
    requires
        consistent(s),
    ensures
        consistent(all_ended(s, ids)),
        forall|id: Seq<char>| #[trigger]
            all_ended(s, ids).requests.dom().contains(id) ==> s.requests.dom().contains(id)
                && !ids.contains(id),
    decreases ids.len(),
{
    if ids.len() > 0 {
        let front = ids.drop_last();
        lemma_all_ended(s, front);
        let before = all_ended(s, front);
        let next = all_ended(s, ids);
        crate::upkeep::law_complete_keeps_consistency(before, ids.last());
        lemma_family(before.parents, ids.last());
        assert forall|id: Seq<char>| #[trigger]
            next.requests.dom().contains(id) implies s.requests.dom().contains(id) && !ids.contains(
            id,
        ) by {
            assert(before.requests.dom().contains(id));
            if ids.contains(id) {
                let i = choose|i: int| 0 <= i < ids.len() && ids[i] == id;
                if i < front.len() {
                    assert(front[i] == id);
                }
            }
        }
    }
}

/// When every request has ended, nothing is left: no request is live, none runs,
/// and none waits, in whatever order they ended.
pub proof fn law_nothing_is_left_behind(s: State, ids: Seq<Seq<char>>)
    requires
        consistent(s),
        forall|id: Seq<char>| #[trigger] s.requests.dom().contains(id) ==> ids.contains(id),
    ensures
        tally(all_ended(s, ids)) == (0int, 0int, 0int),
        forall|key: Seq<char>| #[trigger]
            all_ended(s, ids).buckets.dom().contains(key) ==> all_ended(s, ids).buckets[key].queue.len()
                == 0,
{
    let end = all_ended(s, ids);
    lemma_all_ended(s, ids);
    assert(end.requests.dom() =~= Set::empty());
    assert(running_requests(end.requests) =~= Set::empty());
    assert(waiting_requests(end.requests) =~= Set::empty());
    assert forall|key: Seq<char>| #[trigger]
        end.buckets.dom().contains(key) implies end.buckets[key].queue.len() == 0 by {
        assert(lined_up(end, key));
        if end.buckets[key].queue.len() > 0 {
            assert(waits(end, end.buckets[key].queue[0], key));
        }
    }
}

// ---------------------------------------------------------------------------
// Configuration and shutdown

/// A new configuration keeps the requests, their deadlines, the running attempts,
/// the lines and what each budget owes.
pub proof fn law_reconfiguration_preserves(s: State, config: ConfigView, now: Instant, key: Seq<char>)
    requires
        consistent(s),
        config_error(config) is None,
        !s.stopping,
        s.buckets.dom().contains(key),
    ensures
        ({
            let next = reconfiguration(s, config, now).0;
            &&& next.config == config
            &&& next.requests == s.requests
            &&& next.parents == s.parents
            &&& running(next.requests, key) == running(s.requests, key)
            &&& next.buckets.dom().contains(key)
            &&& next.buckets[key].queue == s.buckets[key].queue
            &&& next.buckets[key].tokens <= level_at(s, key, now).tokens
            &&& level_at(s, key, now).tokens <= capacity(policy_for(config, key))
                ==> next.buckets[key].tokens == level_at(s, key, now).tokens
        }),
{
}

/// A configuration that is refused leaves everything as it was.
pub proof fn law_refused_configuration_changes_nothing(s: State, config: ConfigView, now: Instant)
    requires
        reconfiguration(s, config, now).1 is Some,
    ensures
        reconfiguration(s, config, now).0 == s,
{
}

/// After a stop no work is taken on, and who waits is turned away.
pub proof fn law_stopping_refuses_work(s: State, id: Seq<char>, key: Seq<char>, now: Instant)
    ensures
        begun(stopped(s), id) == (stopped(s), Err::<(), Rejection>(Rejection::Stopping)),
        attempted(stopped(s), id, key, now) == (
            stopped(s),
            Decision::Reject(Rejection::Stopping),
        ),
        polled(stopped(s), id, now).1 == Decision::Reject(Rejection::Stopping),
        begun_inside(stopped(s), id, key).1 is Err,
        begun_inside(stopped(s), id, key).0 == stopped(s),
{
}

// ---------------------------------------------------------------------------
// What each call decides

/// What a start of an attempt decides, where the credential has a policy and there is
/// room for its bucket. With nobody in line, a free slot and a token, it runs and
/// takes the token. Where the line is full it is refused, and no slot is held. Else
/// it stands last in line until its deadline; a deadline that is now refuses it.
pub proof fn law_attempts_run_wait_or_are_refused(
    s: State,
    id: Seq<char>,
    key: Seq<char>,
    now: Instant,
)
    requires
        consistent(s),
        now.readable(),
        !s.stopping,
        s.requests.dom().contains(id),
        !(s.requests[id] is Queued),
        policy_for(s.config, key).enabled,
        attempted(s, id, key, now).1 != Decision::Reject(Rejection::Capacity),
    ensures
        ({
            let policy = policy_for(s.config, key);
            let line = if s.buckets.dom().contains(key) {
                s.buckets[key].queue
            } else {
                Seq::empty()
            };
            let full = policy.burst * 60_000_000_000int;
            let span = if now.nanos > s.buckets[key].updated.nanos {
                now.nanos - s.buckets[key].updated.nanos
            } else {
                0
            };
            let grown = s.buckets[key].tokens + span * policy.requests_per_minute;
            let budget = if !s.buckets.dom().contains(key) || policy.requests_per_minute == 0
                || grown > full {
                full
            } else {
                grown
            };
            let others = s.requests.dom().filter(
                |x: Seq<char>| x != id && s.requests[x] == Stage::Active(key),
            ).len();
            let slot = policy.max_concurrency == 0 || others < policy.max_concurrency;
            let token = policy.requests_per_minute == 0 || budget >= 60_000_000_000int;
            let deadline = now.nanos + policy.queue_timeout_ms * 1_000_000;
            let (next, decision) = attempted(s, id, key, now);
            let after = next.buckets[key];
            &&& next.buckets.dom().contains(key)
            &&& after.updated == now
            &&& if line.len() == 0 && slot && token {
                &&& decision == Decision::Admit
                &&& next.requests == s.requests.insert(id, Stage::Active(key))
                &&& after.queue == line
                &&& after.tokens == if policy.requests_per_minute == 0 {
                    budget
                } else {
                    budget - 60_000_000_000int
                }
            } else if line.len() >= policy.max_queue {
                &&& decision == Decision::Reject(Rejection::QueueFull)
                &&& next.requests == s.requests.insert(id, Stage::Idle)
                &&& after.queue == line
                &&& after.tokens == budget
            } else if policy.queue_timeout_ms == 0 {
                &&& decision == Decision::Reject(Rejection::QueueTimeout)
                &&& next.requests == s.requests.insert(id, Stage::Idle)
                &&& after.queue == line
                &&& after.tokens == budget
            } else {
                &&& decision is WaitUntil
                &&& next.requests.dom() == s.requests.dom().insert(id)
                &&& next.requests[id] is Queued
                &&& next.requests[id]->Queued_0 == key
                &&& next.requests[id]->Queued_1.nanos == deadline
                &&& forall|x: Seq<char>| #[trigger]
                    s.requests.dom().contains(x) && x != id ==> next.requests[x] == s.requests[x]
                &&& after.queue == line.push(id)
                &&& after.tokens == budget
                &&& line.len() > 0 || token ==> decision->WaitUntil_0.nanos == deadline
                &&& now.nanos < decision->WaitUntil_0.nanos <= deadline
                &&& line.len() == 0 && !token ==> {
                    let wait = decision->WaitUntil_0.nanos - now.nanos;
                    let gained = budget + wait * policy.requests_per_minute;
                    let half = policy.requests_per_minute as int;
                    &&& now.nanos + wait == deadline || 2 * gained + half >= 120_000_000_000int
                    &&& wait == 1 || 2 * gained <= 120_000_000_000int + half
                }
            }
        }),
        attempted(s, id, key, now).0.config == s.config,
        attempted(s, id, key, now).0.parents == s.parents,
        !attempted(s, id, key, now).0.stopping,
{
    let policy = rule(s, key);
    let base = ground(s, id, key, now);
    lemma_ground(s, id, key, now);
    lemma_detached_sound(s, id);
    lemma_swept_sound(detached(s, id), now);
    lemma_attempt_cases(s, id, key, now);
    lemma_attempted_sound(s, id, key, now);
    let others = s.requests.dom().filter(
        |x: Seq<char>| x != id && s.requests[x] == Stage::Active(key),
    );
    assert(others =~= actives(base.requests, key));
    let level = level_at(s, key, now);
    let line = if s.buckets.dom().contains(key) {
        s.buckets[key].queue
    } else {
        Seq::empty()
    };
    assert(level.queue == line);
    let slot = policy.max_concurrency == 0 || others.len() < policy.max_concurrency;
    let token = policy.requests_per_minute == 0 || level.tokens >= TOKEN;
    if !(line.len() == 0 && slot && token) && line.len() < policy.max_queue {
        lemma_joining_waits(base, id, key, now);
        if policy.queue_timeout_ms > 0 {
            lemma_joining_wakes(base, id, key, now);
            law_wake_time(policy, level.tokens, now, deadline_from(policy, now));
        }
    }
}

/// When a request that joins the line looks again: the first in line when its token
/// is due, everybody else at the deadline.
proof fn lemma_joining_wakes(s: State, id: Seq<char>, key: Seq<char>, now: Instant)
    requires
        sound(s),
        !s.stopping,
        s.requests.dom().contains(id),
        s.requests[id] is Idle,
        rule(s, key).enabled,
        now.readable(),
        rule(s, key).queue_timeout_ms > 0,
        !(level_at(s, key, now).queue.len() == 0 && available(
            rule(s, key),
            level_at(s, key, now).tokens,
            running(s.requests, key),
        )),
    ensures
        ({
            let level = level_at(s, key, now);
            let deadline = deadline_from(rule(s, key), now);
            let decision = polled(queued(s, id, key, level, deadline), id, now).1;
            decision == Decision::WaitUntil(
                if level.queue.len() == 0 {
                    wake_time(rule(s, key), level.tokens, now, deadline)
                } else {
                    deadline
                },
            )
        }),
{
    let level = level_at(s, key, now);
    let policy = rule(s, key);
    let deadline = deadline_from(policy, now);
    let line = queued(s, id, key, level, deadline);
    lemma_level_at(s, key, now);
    lemma_refilled_now(s, key, now);
    lemma_queued_sound(s, id, key, level, deadline);
    lemma_running(s.requests, id, Stage::Queued(key, deadline), key);
    if s.buckets.dom().contains(key) {
        lemma_not_in_line(s, id, key);
    }
    let joined = level.queue.push(id);
    let fill = refilled(policy, line.buckets[key], now);
    assert(fill == line.buckets[key]);
    if joined[0] == id && level.queue.len() > 0 {
        assert(level.queue[0] == id);
    }
}

/// A start of an attempt is refused for want of room exactly where the credential has
/// no bucket and as many buckets as the configuration allows are still needed: some
/// other request runs on them, some request waits there, or they are not full. Only
/// those are kept, and the request holds no slot.
pub proof fn law_room_is_refused_only_where_buckets_are_needed(
    s: State,
    id: Seq<char>,
    key: Seq<char>,
    now: Instant,
    kept: Set<Seq<char>>,
)
    requires
        consistent(s),
        now.readable(),
        !s.stopping,
        s.requests.dom().contains(id),
        !(s.requests[id] is Queued),
        policy_for(s.config, key).enabled,
        forall|k: Seq<char>| #[trigger]
            kept.contains(k) <==> {
                let policy = policy_for(s.config, k);
                let span = if now.nanos > s.buckets[k].updated.nanos {
                    now.nanos - s.buckets[k].updated.nanos
                } else {
                    0
                };
                &&& s.buckets.dom().contains(k)
                &&& {
                    ||| exists|x: Seq<char>|
                        x != id && #[trigger] s.requests.dom().contains(x) && s.requests[x]
                            == Stage::Active(k)
                    ||| s.buckets[k].queue.len() > 0
                    ||| policy.requests_per_minute != 0 && s.buckets[k].tokens + span
                        * policy.requests_per_minute < policy.burst * 60_000_000_000int
                }
            },
    ensures
        attempted(s, id, key, now).1 == Decision::Reject(Rejection::Capacity)
            <==> !s.buckets.dom().contains(key) && kept.len() >= s.config.max_credentials,
        attempted(s, id, key, now).1 == Decision::Reject(Rejection::Capacity) ==> {
            let next = attempted(s, id, key, now).0;
            &&& next.requests == s.requests.insert(id, Stage::Idle)
            &&& next.buckets.dom() == kept
        },
        !s.buckets.dom().contains(key) ==> forall|k: Seq<char>|
            k != key ==> (#[trigger] attempted(s, id, key, now).0.buckets.dom().contains(k)
                <==> kept.contains(k)),
{
    let base = ground(s, id, key, now);
    lemma_ground(s, id, key, now);
    lemma_attempt_cases(s, id, key, now);
    let free = detached(s, id);
    if !s.buckets.dom().contains(key) {
        assert forall|k: Seq<char>| #[trigger] base.buckets.dom().contains(k) <==> kept.contains(
            k,
        ) by {
            lemma_running(free.requests, id, Stage::Idle, k);
            if s.buckets.dom().contains(k) {
                assert(in_budget(s, k));
                if running(free.requests, k) != 0 {
                    let x = actives(free.requests, k).choose();
                    assert(actives(free.requests, k).contains(x));
                    assert(s.requests.dom().contains(x) && x != id);
                }
                if exists|x: Seq<char>|
                    x != id && #[trigger] s.requests.dom().contains(x) && s.requests[x]
                        == Stage::Active(k) {
                    let x = choose|x: Seq<char>|
                        x != id && #[trigger] s.requests.dom().contains(x) && s.requests[x]
                            == Stage::Active(k);
                    assert(actives(free.requests, k).contains(x));
                    assert(actives(free.requests, k).len() > 0);
                }
            }
        }
        assert(base.buckets.dom() =~= kept);
    }
}

/// An attempt is refused and nothing changes where the engine stops, where the request
/// is not live, and where it waits already. Where the policy is switched off, it
/// passes: the request gives up its slot and takes none.
pub proof fn law_attempts_outside_the_rules(s: State, id: Seq<char>, key: Seq<char>, now: Instant)
    ensures
        s.stopping ==> attempted(s, id, key, now) == (s, Decision::Reject(Rejection::Stopping)),
        !s.stopping && !s.requests.dom().contains(id) ==> attempted(s, id, key, now) == (
            s,
            Decision::Reject(Rejection::RequestEnded),
        ),
        !s.stopping && s.requests.dom().contains(id) && s.requests[id] is Queued ==> attempted(
            s,
            id,
            key,
            now,
        ) == (s, Decision::Reject(Rejection::DuplicateWait)),
        !s.stopping && s.requests.dom().contains(id) && !(s.requests[id] is Queued)
            && !policy_for(s.config, key).enabled ==> attempted(s, id, key, now) == (
            State { requests: s.requests.insert(id, Stage::Idle), ..s },
            Decision::Admit,
        ),
{
    if s.requests.dom().contains(id) && s.requests[id] is Idle {
        assert(s.requests.insert(id, Stage::Idle) =~= s.requests);
    }
}

/// What a look of a waiting request decides. From its deadline on it is refused.
/// Before, it passes where the policy is switched off; it runs where it is the first
/// in line, a slot is free and a token is there, and takes the token; else it keeps
/// its place and its deadline.
pub proof fn law_looks_run_wait_or_are_refused(
    s: State,
    id: Seq<char>,
    key: Seq<char>,
    now: Instant,
)
    requires
        consistent(s),
        !s.stopping,
        s.requests.dom().contains(id),
        s.requests[id] is Queued,
        s.requests[id]->Queued_0 == key,
    ensures
        ({
            let policy = policy_for(s.config, key);
            let before = s.buckets[key];
            let deadline = s.requests[id]->Queued_1;
            let full = policy.burst * 60_000_000_000int;
            let span = if now.nanos > before.updated.nanos {
                now.nanos - before.updated.nanos
            } else {
                0
            };
            let grown = before.tokens + span * policy.requests_per_minute;
            let budget = if policy.requests_per_minute == 0 || grown > full {
                full
            } else {
                grown
            };
            let active = s.requests.dom().filter(
                |x: Seq<char>| s.requests[x] == Stage::Active(key),
            ).len();
            let slot = policy.max_concurrency == 0 || active < policy.max_concurrency;
            let token = policy.requests_per_minute == 0 || budget >= 60_000_000_000int;
            let first = before.queue[0] == id;
            let (next, decision) = polled(s, id, now);
            let after = next.buckets[key];
            &&& next.config == s.config && next.parents == s.parents && !next.stopping
            &&& next.buckets.dom() == s.buckets.dom()
            &&& forall|k: Seq<char>| #[trigger]
                s.buckets.dom().contains(k) && k != key ==> next.buckets[k] == s.buckets[k]
            &&& if now.nanos >= deadline.nanos {
                &&& decision == Decision::Reject(Rejection::QueueTimeout)
                &&& next.requests == s.requests.insert(id, Stage::Idle)
                &&& after.tokens == before.tokens && after.updated == before.updated
                &&& forall|x: Seq<char>| #[trigger]
                    after.queue.contains(x) <==> before.queue.contains(x) && x != id
            } else if !policy.enabled {
                &&& decision == Decision::Admit
                &&& next.requests == s.requests.insert(id, Stage::Idle)
                &&& after.tokens == budget && after.updated == now
                &&& forall|x: Seq<char>| #[trigger]
                    after.queue.contains(x) <==> before.queue.contains(x) && x != id
            } else if first && slot && token {
                &&& decision == Decision::Admit
                &&& next.requests == s.requests.insert(id, Stage::Active(key))
                &&& after.queue == before.queue.drop_first()
                &&& after.updated == now
                &&& after.tokens == if policy.requests_per_minute == 0 {
                    budget
                } else {
                    budget - 60_000_000_000int
                }
            } else {
                &&& decision is WaitUntil
                &&& next.requests == s.requests
                &&& after.queue == before.queue
                &&& after.tokens == budget && after.updated == now
                &&& now.nanos < decision->WaitUntil_0.nanos <= deadline.nanos
                &&& !first || token ==> decision->WaitUntil_0 == deadline
                &&& first && !token ==> {
                    let wait = decision->WaitUntil_0.nanos - now.nanos;
                    let gained = budget + wait * policy.requests_per_minute;
                    let half = policy.requests_per_minute as int;
                    &&& now.nanos + wait == deadline.nanos || 2 * gained + half
                        >= 120_000_000_000int
                    &&& wait == 1 || 2 * gained <= 120_000_000_000int + half
                }
            }
        }),
{
    let policy = rule(s, key);
    let before = s.buckets[key];
    let deadline = s.requests[id]->Queued_1;
    assert(s.buckets.dom().contains(key) && before.queue.contains(id));
    assert(lined_up(s, key));
    assert(before.queue.len() > 0);
    let active = s.requests.dom().filter(|x: Seq<char>| s.requests[x] == Stage::Active(key));
    assert(active =~= actives(s.requests, key));
    lemma_leaving(before.queue, id);
    lemma_polled_sound(s, id, now);
    if now.nanos < deadline.nanos {
        law_wake_time(policy, refilled(policy, before, now).tokens, now, deadline);
    }
    let next = polled(s, id, now).0;
    assert(next.buckets.dom() =~= s.buckets.dom());
}

/// A look of a request that does not wait changes nothing: one that is live passes,
/// one that is not has ended. Once the engine stops, every look is refused, and who
/// looks holds neither a slot nor a place in line any more.
pub proof fn law_looks_outside_the_line(s: State, id: Seq<char>, now: Instant)
    requires
        consistent(s),
    ensures
        !s.stopping && !s.requests.dom().contains(id) ==> polled(s, id, now) == (
            s,
            Decision::Reject(Rejection::RequestEnded),
        ),
        !s.stopping && s.requests.dom().contains(id) && !(s.requests[id] is Queued) ==> polled(
            s,
            id,
            now,
        ) == (s, Decision::Admit),
        s.stopping ==> {
            let (next, decision) = polled(s, id, now);
            &&& decision == Decision::Reject(Rejection::Stopping)
            &&& next.requests == if s.requests.dom().contains(id) {
                s.requests.insert(id, Stage::Idle)
            } else {
                s.requests
            }
            &&& next.buckets.dom() == s.buckets.dom()
            &&& forall|k: Seq<char>| #[trigger]
                s.buckets.dom().contains(k) ==> {
                    &&& next.buckets[k].tokens == s.buckets[k].tokens
                    &&& next.buckets[k].updated == s.buckets[k].updated
                    &&& forall|x: Seq<char>| #[trigger]
                        next.buckets[k].queue.contains(x) <==> s.buckets[k].queue.contains(x) && x
                            != id
                }
        },
{
    if s.stopping {
        let next = polled(s, id, now).0;
        if s.requests.dom().contains(id) && s.requests[id] is Idle {
            assert(s.requests.insert(id, Stage::Idle) =~= s.requests);
        }
        assert(next.buckets.dom() =~= s.buckets.dom());
        assert forall|k: Seq<char>| #[trigger] s.buckets.dom().contains(k) implies {
            &&& next.buckets[k].tokens == s.buckets[k].tokens
            &&& next.buckets[k].updated == s.buckets[k].updated
            &&& forall|x: Seq<char>| #[trigger]
                next.buckets[k].queue.contains(x) <==> s.buckets[k].queue.contains(x) && x != id
        } by {
            lemma_leaving(s.buckets[k].queue, id);
            if !waits(s, id, k) {
                lemma_not_in_line(s, id, k);
            }
        }
    }
}

/// Those who stay in a line stay in their order: of two that stay, the one in front
/// is still in front.
proof fn lemma_filter_order(line: Seq<Seq<char>>, keep: spec_fn(Seq<char>) -> bool, i: int, j: int)
    requires
        0 <= i < j < line.len(),
        keep(line[i]),
        keep(line[j]),
    ensures
        exists|a: int, b: int|
            0 <= a < b < line.filter(keep).len() && #[trigger] line.filter(keep)[a] == line[i]
                && #[trigger] line.filter(keep)[b] == line[j],
    decreases line.len(),
{
    reveal(Seq::filter);
    let front = line.drop_last();
    let kept = front.filter(keep);
    if j < front.len() {
        lemma_filter_order(front, keep, i, j);
        let (a, b): (int, int) = choose|a: int, b: int|
            0 <= a < b < kept.len() && #[trigger] kept[a] == front[i] && #[trigger] kept[b]
                == front[j];
        assert(line.filter(keep)[a] == line[i] && line.filter(keep)[b] == line[j]);
    } else {
        lemma_filter(front, keep);
        assert(front[i] == line[i]);
        assert(front.contains(front[i]));
        assert(kept.contains(line[i]));
        let a = choose|a: int| 0 <= a < kept.len() && kept[a] == line[i];
        assert(line.filter(keep) == kept.push(line.last()));
        assert(line.filter(keep)[a] == line[i]);
        assert(line.filter(keep)[kept.len() as int] == line[j]);
    }
}

/// Who leaves a line, at its deadline, on a stop, by its end or by the end of its
/// outer request, leaves the others in their order.
pub proof fn law_lines_keep_their_order(
    s: State,
    id: Seq<char>,
    key: Seq<char>,
    now: Instant,
    i: int,
    j: int,
)
    requires
        consistent(s),
        s.buckets.dom().contains(key),
        0 <= i < j < s.buckets[key].queue.len(),
    ensures
        ({
            let line = s.buckets[key].queue;
            let looked = polled(s, id, now).0.buckets[key].queue;
            let ended = completed(s, id).buckets[key].queue;
            &&& line[i] != id && line[j] != id ==> exists|a: int, b: int|
                0 <= a < b < looked.len() && #[trigger] looked[a] == line[i] && #[trigger] looked[b]
                    == line[j]
            &&& !inside(s.parents, line[i], id) && !inside(s.parents, line[j], id) ==> exists|
                a: int,
                b: int,
            |
                0 <= a < b < ended.len() && #[trigger] ended[a] == line[i] && #[trigger] ended[b]
                    == line[j]
        }),
{
    let line = s.buckets[key].queue;
    let looked = polled(s, id, now).0.buckets[key].queue;
    let ended = completed(s, id).buckets[key].queue;
    let gone = family(s.parents, id);
    if line[i] != id && line[j] != id {
        law_looking_keeps_the_line(s, id, now, key);
        if looked == line {
            assert(looked[i] == line[i] && looked[j] == line[j]);
        } else {
            lemma_filter_order(line, other_than(id), i, j);
        }
    }
    if !inside(s.parents, line[i], id) && !inside(s.parents, line[j], id) {
        assert(!gone.contains(line[i]) && !gone.contains(line[j]));
        lemma_filter_order(line, outside(gone), i, j);
    }
}

/// What a registration decides: it is refused once the engine stops, and where as
/// many requests are live as the configuration allows; a request that is live stays
/// as it is, and a new one is idle. Nothing else changes.
pub proof fn law_registrations_are_taken_or_refused(s: State, id: Seq<char>)
    ensures
        ({
            let (next, result) = begun(s, id);
            let live = s.requests.dom().contains(id);
            let room = s.requests.dom().len() < s.config.max_tracked_requests;
            &&& s.stopping ==> result == Err::<(), Rejection>(Rejection::Stopping)
            &&& !s.stopping && (live || room) ==> result == Ok::<(), Rejection>(())
            &&& !s.stopping && !live && !room ==> result == Err::<(), Rejection>(
                Rejection::Capacity,
            )
            &&& next == if !s.stopping && !live && room {
                State { requests: s.requests.insert(id, Stage::Idle), ..s }
            } else {
                s
            }
        }),
{
}

/// What a nested registration decides: it is refused as ended where the outer request
/// is not live, or is the request itself, and where the request is live already; else
/// it is taken or refused like any other, and what is taken is nested.
pub proof fn law_nested_registrations_are_taken_or_refused(
    s: State,
    id: Seq<char>,
    parent: Seq<char>,
)
    ensures
        ({
            let (next, result) = begun_inside(s, id, parent);
            let fit = id != parent && s.requests.dom().contains(parent)
                && !s.requests.dom().contains(id);
            let room = s.requests.dom().len() < s.config.max_tracked_requests;
            &&& !fit ==> result == Err::<(), Rejection>(Rejection::RequestEnded)
            &&& fit && s.stopping ==> result == Err::<(), Rejection>(Rejection::Stopping)
            &&& fit && !s.stopping && !room ==> result == Err::<(), Rejection>(Rejection::Capacity)
            &&& fit && !s.stopping && room ==> result == Ok::<(), Rejection>(())
            &&& next == if fit && !s.stopping && room {
                State {
                    requests: s.requests.insert(id, Stage::Idle),
                    parents: s.parents.insert(id, parent),
                    ..s
                }
            } else {
                s
            }
        }),
{
}

/// A request is nested in another one where it is that one, or where the one around
/// it is.
pub proof fn law_nesting_goes_outwards(
    parents: Map<Seq<char>, Seq<char>>,
    id: Seq<char>,
    ancestor: Seq<char>,
)
    ensures
        inside(parents, id, ancestor) <==> id == ancestor || (parents.dom().contains(id) && inside(
            parents,
            parents[id],
            ancestor,
        )),
{
    if inside(parents, id, ancestor) {
        let n = choose|n: nat| #[trigger] outer(parents, id, n) == Some(ancestor);
        if n > 0 {
            assert(outer(parents, parents[id], (n - 1) as nat) == Some(ancestor));
        }
    }
    if id == ancestor {
        assert(outer(parents, id, 0) == Some(ancestor));
    }
    if parents.dom().contains(id) && inside(parents, parents[id], ancestor) {
        let n = choose|n: nat| #[trigger] outer(parents, parents[id], n) == Some(ancestor);
        assert(outer(parents, id, n + 1) == Some(ancestor));
    }
}

/// The end of a request takes away exactly the requests nested in it, itself among
/// them: from the live ones, from the nested ones and from every line. The others
/// stay as they are, and so do all budgets.
pub proof fn law_ends_take_away_what_is_nested(
    s: State,
    id: Seq<char>,
    x: Seq<char>,
    key: Seq<char>,
)
    requires
        consistent(s),
    ensures
        ({
            let next = completed(s, id);
            let gone = inside(s.parents, x, id);
            &&& next.requests.dom().contains(x) <==> s.requests.dom().contains(x) && !gone
            &&& next.requests.dom().contains(x) ==> next.requests[x] == s.requests[x]
            &&& next.parents.dom().contains(x) <==> s.parents.dom().contains(x) && !gone
            &&& next.parents.dom().contains(x) ==> next.parents[x] == s.parents[x]
            &&& next.buckets.dom().contains(key) <==> s.buckets.dom().contains(key)
            &&& s.buckets.dom().contains(key) ==> {
                &&& next.buckets[key].tokens == s.buckets[key].tokens
                &&& next.buckets[key].updated == s.buckets[key].updated
                &&& next.buckets[key].queue.contains(x) <==> s.buckets[key].queue.contains(x)
                    && !gone
            }
            &&& next.config == s.config
            &&& next.stopping == s.stopping
        }),
{
    lemma_filter(s.buckets[key].queue, outside(family(s.parents, id)));
    assert(family(s.parents, id).contains(x) == inside(s.parents, x, id));
}

/// A configuration that is taken over leaves every budget at the smaller of two: what
/// it was worth at that time under the policy before, and what the new policy lets it
/// hold. The requests, the lines and what is nested stay, and so do the buckets.
pub proof fn law_reconfiguration_cuts_budgets(
    s: State,
    config: ConfigView,
    now: Instant,
    key: Seq<char>,
)
    requires
        config_error(config) is None,
        !s.stopping,
    ensures
        ({
            let next = reconfiguration(s, config, now).0;
            let old_policy = policy_for(s.config, key);
            let full = old_policy.burst * 60_000_000_000int;
            let span = if now.nanos > s.buckets[key].updated.nanos {
                now.nanos - s.buckets[key].updated.nanos
            } else {
                0
            };
            let grown = s.buckets[key].tokens + span * old_policy.requests_per_minute;
            let worth = if old_policy.requests_per_minute == 0 || grown > full {
                full
            } else {
                grown
            };
            let most = policy_for(config, key).burst * 60_000_000_000int;
            &&& reconfiguration(s, config, now).1 is None
            &&& next.config == config
            &&& next.requests == s.requests
            &&& next.parents == s.parents
            &&& !next.stopping
            &&& next.buckets.dom() == s.buckets.dom()
            &&& s.buckets.dom().contains(key) ==> {
                &&& next.buckets[key].queue == s.buckets[key].queue
                &&& next.buckets[key].updated == now
                &&& worth >= most ==> next.buckets[key].tokens == most
                &&& worth <= most ==> next.buckets[key].tokens == worth
            }
        }),
{
    assert(reconfiguration(s, config, now).0.buckets.dom() =~= s.buckets.dom());
}

/// A configuration that is not valid is refused with what is wrong with it, one that
/// comes after a stop because of that; either way everything stays.
pub proof fn law_configurations_are_refused(s: State, config: ConfigView, now: Instant)
    ensures
        config_error(config) is Some ==> reconfiguration(s, config, now) == (
            s,
            config_error(config),
        ),
        config_error(config) is None && s.stopping ==> reconfiguration(s, config, now) == (
            s,
            Some("plugin is stopping"@),
        ),
{
}

/// A stop changes nothing but that new work is refused, and a new engine holds
/// nothing.
pub proof fn law_starts_empty_and_stops_for_good(s: State, config: ConfigView)
    ensures
        stopped(s) == (State { stopping: true, ..s }),
        initial(config).config == config,
        initial(config).requests.dom() == Set::<Seq<char>>::empty(),
        initial(config).parents.dom() == Set::<Seq<char>>::empty(),
        initial(config).buckets.dom() == Set::<Seq<char>>::empty(),
        !initial(config).stopping,
{
}

/// The counts are those of the live requests, of those that run and of those that
/// wait.
pub proof fn law_counts_are_what_they_say(s: State, active: Set<Seq<char>>, waiting: Set<Seq<char>>)
    requires
        forall|x: Seq<char>| #[trigger]
            active.contains(x) <==> s.requests.dom().contains(x) && s.requests[x] is Active,
        forall|x: Seq<char>| #[trigger]
            waiting.contains(x) <==> s.requests.dom().contains(x) && s.requests[x] is Queued,
    ensures
        tally(s) == (
            s.requests.dom().len() as int,
            active.len() as int,
            waiting.len() as int,
        ),
{
    assert(active =~= running_requests(s.requests));
    assert(waiting =~= waiting_requests(s.requests));
}

/// A start of an attempt on one credential leaves the buckets of the others as they
/// are, but for bringing them up to date where room is made: their lines stay, and a
/// budget then holds what it was worth.
pub proof fn law_attempts_leave_other_buckets(
    s: State,
    id: Seq<char>,
    key: Seq<char>,
    now: Instant,
    other: Seq<char>,
)
    requires
        consistent(s),
        now.readable(),
        other != key,
        attempted(s, id, key, now).0.buckets.dom().contains(other),
    ensures
        ({
            let policy = policy_for(s.config, other);
            let full = policy.burst * 60_000_000_000int;
            let span = if now.nanos > s.buckets[other].updated.nanos {
                now.nanos - s.buckets[other].updated.nanos
            } else {
                0
            };
            let grown = s.buckets[other].tokens + span * policy.requests_per_minute;
            let after = attempted(s, id, key, now).0.buckets[other];
            &&& s.buckets.dom().contains(other)
            &&& after.queue == s.buckets[other].queue
            &&& s.buckets.dom().contains(key) ==> after == s.buckets[other]
            &&& after == s.buckets[other] || (after.updated == now && after.tokens == if policy.requests_per_minute
                == 0 || grown > full {
                full
            } else {
                grown
            })
        }),
{
    if may_attempt(s, id) {
        lemma_ground(s, id, key, now);
        if rule(s, key).enabled {
            lemma_attempt_cases(s, id, key, now);
        }
    }
}

} // verus!
