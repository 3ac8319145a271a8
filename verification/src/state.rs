//! The admission state and how each event changes it.
use crate::bucket::{available, capacity, fresh, leaving, refilled, spent, wake_time, Level};
use crate::clock::{Instant, MILLI};
use crate::config::{config_error, policy_for, ConfigView, Policy};
use crate::engine::{Decision, Rejection};
use vstd::prelude::*;

verus! {

/// Where a request stands.
pub enum Stage {
    /// Registered, with no attempt under way.
    Idle,
    /// An attempt on this credential is running.
    Active(Seq<char>),
    /// Waiting for this credential, until a deadline.
    Queued(Seq<char>, Instant),
}

/// All that admission depends on.
pub struct State {
    pub config: ConfigView,
    /// The live requests.
    pub requests: Map<Seq<char>, Stage>,
    /// The outer request of each nested one.
    pub parents: Map<Seq<char>, Seq<char>>,
    /// The buckets of the credentials in use.
    pub buckets: Map<Seq<char>, Level>,
    pub stopping: bool,
}

/// The policy of a credential's bucket.
pub open spec fn rule(s: State, key: Seq<char>) -> Policy {
    policy_for(s.config, key)
}

/// The requests with an attempt running on a credential.
pub open spec fn actives(requests: Map<Seq<char>, Stage>, key: Seq<char>) -> Set<Seq<char>> {
    requests.dom().filter(|id: Seq<char>| requests[id] == Stage::Active(key))
}

/// The number of attempts running on a credential.
pub open spec fn running(requests: Map<Seq<char>, Stage>, key: Seq<char>) -> int {
    actives(requests, key).len() as int
}

/// A request waits for a credential.
pub open spec fn waits(s: State, id: Seq<char>, key: Seq<char>) -> bool {
    s.requests.dom().contains(id) && s.requests[id] is Queued && s.requests[id]->Queued_0 == key
}

// ---------------------------------------------------------------------------
// What every state keeps

/// A request that runs or waits does so on a bucket, and one that waits is in line.
pub open spec fn placed(s: State) -> bool {
    forall|id: Seq<char>| #[trigger]
        s.requests.dom().contains(id) ==> match s.requests[id] {
            Stage::Idle => true,
            Stage::Active(key) => s.buckets.dom().contains(key),
            Stage::Queued(key, _) => s.buckets.dom().contains(key)
                && s.buckets[key].queue.contains(id),
        }
}

/// Who stands in line for a credential waits for it, and stands there once.
pub open spec fn lined_up(s: State, key: Seq<char>) -> bool {
    &&& s.buckets[key].queue.no_duplicates()
    &&& forall|i: int|
        0 <= i < s.buckets[key].queue.len() ==> waits(s, #[trigger] s.buckets[key].queue[i], key)
}

/// The budget of a bucket is neither overdrawn nor above its capacity.
pub open spec fn in_budget(s: State, key: Seq<char>) -> bool {
    0 <= s.buckets[key].tokens <= capacity(rule(s, key))
}

/// Requests and buckets agree.
pub open spec fn sound(s: State) -> bool {
    &&& s.requests.dom().finite()
    &&& s.buckets.dom().finite()
    &&& placed(s)
    &&& forall|key: Seq<char>| #[trigger]
        s.buckets.dom().contains(key) ==> lined_up(s, key) && in_budget(s, key)
}

/// Nested requests are live, and so are their outer ones.
pub open spec fn related(s: State) -> bool {
    forall|id: Seq<char>| #[trigger]
        s.parents.dom().contains(id) ==> s.requests.dom().contains(id)
            && s.requests.dom().contains(s.parents[id])
}

/// What holds of every state that the engine reaches.
pub open spec fn consistent(s: State) -> bool {
    sound(s) && related(s)
}

// ---------------------------------------------------------------------------
// Events

/// The state before any event.
pub open spec fn initial(config: ConfigView) -> State {
    State {
        config,
        requests: Map::empty(),
        parents: Map::empty(),
        buckets: Map::empty(),
        stopping: false,
    }
}

/// A request registers.
pub open spec fn begun(s: State, id: Seq<char>) -> (State, Result<(), Rejection>) {
    if s.stopping {
        (s, Err(Rejection::Stopping))
    } else if s.requests.dom().contains(id) {
        (s, Ok(()))
    } else if s.requests.len() >= s.config.max_tracked_requests {
        (s, Err(Rejection::Capacity))
    } else {
        (State { requests: s.requests.insert(id, Stage::Idle), ..s }, Ok(()))
    }
}

/// A request registers inside another one.
pub open spec fn begun_inside(s: State, id: Seq<char>, parent: Seq<char>) -> (
    State,
    Result<(), Rejection>,
) {
    if id == parent || !s.requests.dom().contains(parent) || s.requests.dom().contains(id) {
        (s, Err(Rejection::RequestEnded))
    } else {
        match begun(s, id) {
            (next, Ok(())) => (State { parents: next.parents.insert(id, parent), ..next }, Ok(())),
            refused => refused,
        }
    }
}

/// A request gives up its slot, or its place in line.
pub open spec fn detached(s: State, id: Seq<char>) -> State {
    if !s.requests.dom().contains(id) {
        s
    } else {
        match s.requests[id] {
            Stage::Idle => s,
            Stage::Active(_) => State { requests: s.requests.insert(id, Stage::Idle), ..s },
            Stage::Queued(key, _) => State {
                requests: s.requests.insert(id, Stage::Idle),
                buckets: s.buckets.insert(
                    key,
                    Level { queue: leaving(s.buckets[key].queue, id), ..s.buckets[key] },
                ),
                ..s
            },
        }
    }
}

/// A bucket that is in use, or still owes part of its budget.
pub open spec fn needed(s: State, key: Seq<char>, now: Instant) -> bool {
    ||| running(s.requests, key) != 0
    ||| s.buckets[key].queue.len() > 0
    ||| refilled(rule(s, key), s.buckets[key], now).tokens < capacity(rule(s, key))
}

/// The buckets brought up to date, those left out that are idle and full.
pub open spec fn swept(s: State, now: Instant) -> State {
    State {
        buckets: Map::new(
            |key: Seq<char>| s.buckets.dom().contains(key) && needed(s, key, now),
            |key: Seq<char>| refilled(rule(s, key), s.buckets[key], now),
        ),
        ..s
    }
}

/// The state in which an attempt on a credential finds its bucket.
pub open spec fn with_room(s: State, key: Seq<char>, now: Instant) -> State {
    if s.buckets.dom().contains(key) {
        s
    } else {
        swept(s, now)
    }
}

/// The bucket of a credential brought up to date; a new one where there is none.
pub open spec fn level_at(s: State, key: Seq<char>, now: Instant) -> Level {
    if s.buckets.dom().contains(key) {
        refilled(rule(s, key), s.buckets[key], now)
    } else {
        fresh(rule(s, key), now)
    }
}

/// The state with one bucket written.
pub open spec fn with_level(s: State, key: Seq<char>, level: Level) -> State {
    State { buckets: s.buckets.insert(key, level), ..s }
}

/// An attempt is admitted, and its token spent.
pub open spec fn admitted(s: State, id: Seq<char>, key: Seq<char>, level: Level) -> State {
    State {
        requests: s.requests.insert(id, Stage::Active(key)),
        buckets: s.buckets.insert(
            key,
            Level { tokens: spent(rule(s, key), level.tokens), ..level },
        ),
        ..s
    }
}

/// A request joins the line.
pub open spec fn queued(
    s: State,
    id: Seq<char>,
    key: Seq<char>,
    level: Level,
    deadline: Instant,
) -> State {
    State {
        requests: s.requests.insert(id, Stage::Queued(key, deadline)),
        buckets: s.buckets.insert(key, Level { queue: level.queue.push(id), ..level }),
        ..s
    }
}

/// How long a request that joins the line now may wait.
pub open spec fn deadline_from(policy: Policy, now: Instant) -> Instant {
    Instant { nanos: (now.nanos + policy.queue_timeout_ms * MILLI) as u128 }
}

/// An attempt on a credential, by a request that neither runs nor waits.
pub open spec fn placed_on(s: State, id: Seq<char>, key: Seq<char>, now: Instant) -> (
    State,
    Decision,
) {
    let policy = rule(s, key);
    let level = level_at(s, key, now);
    if level.queue.len() == 0 && available(policy, level.tokens, running(s.requests, key)) {
        (admitted(s, id, key, level), Decision::Admit)
    } else if level.queue.len() >= policy.max_queue {
        (with_level(s, key, level), Decision::Reject(Rejection::QueueFull))
    } else {
        polled(queued(s, id, key, level, deadline_from(policy, now)), id, now)
    }
}

/// A request starts an attempt on a credential; the previous attempt is over.
pub open spec fn attempted(s: State, id: Seq<char>, key: Seq<char>, now: Instant) -> (
    State,
    Decision,
) {
    if s.stopping {
        (s, Decision::Reject(Rejection::Stopping))
    } else if !s.requests.dom().contains(id) {
        (s, Decision::Reject(Rejection::RequestEnded))
    } else if s.requests[id] is Queued {
        (s, Decision::Reject(Rejection::DuplicateWait))
    } else {
        let free = detached(s, id);
        if !rule(s, key).enabled {
            (free, Decision::Admit)
        } else {
            let ready = with_room(free, key, now);
            if !ready.buckets.dom().contains(key) && ready.buckets.len()
                >= s.config.max_credentials {
                (ready, Decision::Reject(Rejection::Capacity))
            } else {
                placed_on(ready, id, key, now)
            }
        }
    }
}

/// A request that waits looks again.
pub open spec fn polled(s: State, id: Seq<char>, now: Instant) -> (State, Decision) {
    if s.stopping {
        (detached(s, id), Decision::Reject(Rejection::Stopping))
    } else if !s.requests.dom().contains(id) {
        (s, Decision::Reject(Rejection::RequestEnded))
    } else {
        match s.requests[id] {
            Stage::Queued(key, deadline) => if now.nanos >= deadline.nanos {
                (detached(s, id), Decision::Reject(Rejection::QueueTimeout))
            } else {
                looked_at(s, id, key, deadline, now)
            },
            _ => (s, Decision::Admit),
        }
    }
}

/// A request in line looks at its bucket before its deadline.
pub open spec fn looked_at(
    s: State,
    id: Seq<char>,
    key: Seq<char>,
    deadline: Instant,
    now: Instant,
) -> (State, Decision) {
    let policy = rule(s, key);
    let level = refilled(policy, s.buckets[key], now);
    let first = level.queue.len() > 0 && level.queue[0] == id;
    if !policy.enabled {
        (detached(with_level(s, key, level), id), Decision::Admit)
    } else if first && available(policy, level.tokens, running(s.requests, key)) {
        (
            admitted(s, id, key, Level { queue: level.queue.drop_first(), ..level }),
            Decision::Admit,
        )
    } else {
        (
            with_level(s, key, level),
            Decision::WaitUntil(
                if first {
                    wake_time(policy, level.tokens, now, deadline)
                } else {
                    deadline
                },
            ),
        )
    }
}

/// `n` steps outwards from a request.
pub open spec fn outer(parents: Map<Seq<char>, Seq<char>>, id: Seq<char>, n: nat) -> Option<Seq<char>>
    decreases n,
{
    if n == 0 {
        Some(id)
    } else if parents.dom().contains(id) {
        outer(parents, parents[id], (n - 1) as nat)
    } else {
        None
    }
}

/// A request is another one, or nested in it at some depth.
pub open spec fn inside(parents: Map<Seq<char>, Seq<char>>, id: Seq<char>, ancestor: Seq<char>) -> bool {
    exists|n: nat| #[trigger] outer(parents, id, n) == Some(ancestor)
}

/// A request with all that is nested in it.
pub open spec fn family(parents: Map<Seq<char>, Seq<char>>, id: Seq<char>) -> Set<Seq<char>> {
    Set::new(|other: Seq<char>| inside(parents, other, id))
}

/// Every request but some.
pub open spec fn outside(gone: Set<Seq<char>>) -> spec_fn(Seq<char>) -> bool {
    |id: Seq<char>| !gone.contains(id)
}

/// A line without some requests.
pub open spec fn remaining(line: Seq<Seq<char>>, gone: Set<Seq<char>>) -> Seq<Seq<char>> {
    line.filter(outside(gone))
}

/// A bucket whose line some requests left.
pub open spec fn thinned(level: Level, gone: Set<Seq<char>>) -> Level {
    Level { queue: remaining(level.queue, gone), ..level }
}

/// Some requests end: they give up their slots and their places in line.
pub open spec fn dropped(s: State, gone: Set<Seq<char>>) -> State {
    State {
        requests: s.requests.remove_keys(gone),
        parents: s.parents.remove_keys(gone),
        buckets: Map::new(
            |key: Seq<char>| s.buckets.dom().contains(key),
            |key: Seq<char>| thinned(s.buckets[key], gone),
        ),
        ..s
    }
}

/// A request ends, with all that is nested in it.
pub open spec fn completed(s: State, id: Seq<char>) -> State {
    dropped(s, family(s.parents, id))
}

/// Another configuration takes over: budgets are brought up to date and cut to the
/// new capacity, all else stays.
pub open spec fn reconfigured(s: State, config: ConfigView, now: Instant) -> State {
    State {
        config,
        buckets: Map::new(
            |key: Seq<char>| s.buckets.dom().contains(key),
            |key: Seq<char>| recut(rule(s, key), policy_for(config, key), s.buckets[key], now),
        ),
        ..s
    }
}

/// A new configuration is offered: one that is not valid, or that comes too late,
/// changes nothing.
pub open spec fn reconfiguration(s: State, config: ConfigView, now: Instant) -> (
    State,
    Option<Seq<char>>,
) {
    if config_error(config) is Some {
        (s, config_error(config))
    } else if s.stopping {
        (s, Some("plugin is stopping"@))
    } else {
        (reconfigured(s, config, now), None)
    }
}

/// A bucket brought up to date under one policy and handed to another.
pub open spec fn recut(before: Policy, after: Policy, level: Level, now: Instant) -> Level {
    let updated = refilled(before, level, now);
    Level {
        tokens: if updated.tokens < capacity(after) {
            updated.tokens
        } else {
            capacity(after)
        },
        ..updated
    }
}

/// New work is refused from now on.
pub open spec fn stopped(s: State) -> State {
    State { stopping: true, ..s }
}

/// The requests with an attempt running.
pub open spec fn running_requests(requests: Map<Seq<char>, Stage>) -> Set<Seq<char>> {
    requests.dom().filter(|id: Seq<char>| requests[id] is Active)
}

/// The requests that wait.
pub open spec fn waiting_requests(requests: Map<Seq<char>, Stage>) -> Set<Seq<char>> {
    requests.dom().filter(|id: Seq<char>| requests[id] is Queued)
}

/// The live requests, the running attempts and the waiting requests.
pub open spec fn tally(s: State) -> (int, int, int) {
    (
        s.requests.len() as int,
        running_requests(s.requests).len() as int,
        waiting_requests(s.requests).len() as int,
    )
}

} // verus!
