//! Token buckets: one rate budget, one set of running attempts and one line of
//! waiting requests per credential.
use crate::clock::{Duration, Instant};
use crate::config::Policy;
use crate::text::same;
use std::collections::VecDeque;
use vstd::prelude::*;

verus! {

broadcast use vstd::string::group_string_axioms;

/// The units that make one token. A bucket gains `requests_per_minute` of them in
/// every nanosecond, so whole numbers measure it exactly.
pub const TOKEN: u128 = 60_000_000_000;

/// What a bucket holds.
pub struct Level {
    /// The rate budget left, in units.
    pub tokens: int,
    /// When the budget was last brought up to date.
    pub updated: Instant,
    /// The requests that wait, the first to come first.
    pub queue: Seq<Seq<char>>,
}

/// The budget of a full bucket.
pub open spec fn capacity(policy: Policy) -> int {
    policy.burst * TOKEN
}

/// The nanoseconds from one point of time to another; none where that is earlier.
pub open spec fn elapsed(from: Instant, to: Instant) -> int {
    if to.nanos > from.nanos {
        to.nanos - from.nanos
    } else {
        0
    }
}

/// The budget after a time span: it grows steadily up to the capacity. Without a
/// rate limit it is always full.
pub open spec fn topped_up(policy: Policy, tokens: int, span: int) -> int {
    if policy.requests_per_minute == 0 || tokens + span * policy.requests_per_minute > capacity(
        policy,
    ) {
        capacity(policy)
    } else {
        tokens + span * policy.requests_per_minute
    }
}

/// A bucket brought up to date.
pub open spec fn refilled(policy: Policy, level: Level, now: Instant) -> Level {
    Level {
        tokens: topped_up(policy, level.tokens, elapsed(level.updated, now)),
        updated: now,
        queue: level.queue,
    }
}

/// A new bucket: full, with nobody waiting.
pub open spec fn fresh(policy: Policy, now: Instant) -> Level {
    Level { tokens: capacity(policy), updated: now, queue: Seq::empty() }
}

/// Whether an attempt can run now, beside so many that are running.
pub open spec fn available(policy: Policy, tokens: int, running: int) -> bool {
    &&& policy.max_concurrency == 0 || running < policy.max_concurrency
    &&& policy.requests_per_minute == 0 || tokens >= TOKEN
}

/// The budget after an admission: one token is spent, unless the rate is unlimited.
pub open spec fn spent(policy: Policy, tokens: int) -> int {
    if policy.requests_per_minute == 0 {
        tokens
    } else {
        tokens - TOKEN
    }
}

/// The quotient rounded to the nearest whole number, and to the even one of two
/// that are equally near.
pub open spec fn nearest(n: int, d: int) -> int {
    if 2 * (n % d) > d || (2 * (n % d) == d && (n / d) % 2 == 1) {
        n / d + 1
    } else {
        n / d
    }
}

/// The nanoseconds until the missing units have flowed in: at least one.
pub open spec fn refill_time(policy: Policy, tokens: int) -> int {
    let span = nearest(TOKEN - tokens, policy.requests_per_minute as int);
    if span < 1 {
        1
    } else {
        span
    }
}

/// When the first in line looks again: when a token is due, where one is missing,
/// but not after its deadline.
pub open spec fn wake_time(policy: Policy, tokens: int, now: Instant, deadline: Instant) -> Instant {
    let due = now.nanos + refill_time(policy, tokens);
    if policy.requests_per_minute != 0 && tokens < TOKEN && due < deadline.nanos {
        Instant { nanos: due as u128 }
    } else {
        deadline
    }
}

/// A line of requests as texts.
pub open spec fn ids(line: Seq<String>) -> Seq<Seq<char>> {
    line.map_values(|id: String| id@)
}

/// Every request but one.
pub open spec fn other_than(id: Seq<char>) -> spec_fn(Seq<char>) -> bool {
    |other: Seq<char>| other != id
}

/// A line without one request.
pub open spec fn leaving(line: Seq<Seq<char>>, id: Seq<char>) -> Seq<Seq<char>> {
    line.filter(other_than(id))
}

/// Bringing a bucket up to date on the way changes nothing: what counts is the
/// time that passed.
pub proof fn law_refill_is_steady(policy: Policy, level: Level, first: Instant, second: Instant)
    requires
        level.tokens <= capacity(policy),
        level.updated.nanos <= first.nanos <= second.nanos,
    ensures
        refilled(policy, refilled(policy, level, first), second) == refilled(policy, level, second),
{
    let rate = policy.requests_per_minute as int;
    let a = elapsed(level.updated, first);
    let b = elapsed(first, second);
    assert((a + b) * rate == a * rate + b * rate) by (nonlinear_arith);
    assert(b * rate >= 0) by (nonlinear_arith)
        requires
            b >= 0,
            rate >= 0,
    ;
}

/// A refill takes nothing away and never exceeds the capacity.
pub proof fn law_refill_is_bounded(policy: Policy, level: Level, now: Instant)
    requires
        level.tokens <= capacity(policy),
    ensures
        level.tokens <= refilled(policy, level, now).tokens <= capacity(policy),
{
    let rate = policy.requests_per_minute as int;
    let span = elapsed(level.updated, now);
    assert(span * rate >= 0) by (nonlinear_arith)
        requires
            span >= 0,
            rate >= 0,
    ;
}

/// In a minute a bucket that stays below its capacity gains exactly
/// `requests_per_minute` tokens.
pub proof fn law_rate_per_minute(policy: Policy, tokens: int)
    requires
        policy.requests_per_minute != 0,
        tokens + policy.requests_per_minute * TOKEN <= capacity(policy),
    ensures
        topped_up(policy, tokens, 60_000_000_000) == tokens + policy.requests_per_minute * TOKEN,
{
}

/// The budget after admissions at the given times, none of which it failed to pay.
pub open spec fn paid_for(policy: Policy, tokens: int, updated: Instant, times: Seq<Instant>) -> Option<int>
    decreases times.len(),
{
    if times.len() == 0 {
        Some(tokens)
    } else {
        let front = times.drop_last();
        let since = if front.len() == 0 {
            updated
        } else {
            front.last()
        };
        match paid_for(policy, tokens, updated, front) {
            Some(left) => {
                let budget = topped_up(policy, left, elapsed(since, times.last()));
                if budget >= TOKEN {
                    Some(budget - TOKEN)
                } else {
                    None
                }
            },
            None => None,
        }
    }
}

/// No point of time is before one that it follows.
pub open spec fn in_order(start: Instant, times: Seq<Instant>) -> bool {
    &&& forall|i: int| 0 <= i < times.len() ==> start.nanos <= (#[trigger] times[i]).nanos
    &&& forall|i: int, j: int|
        0 <= i <= j < times.len() ==> (#[trigger] times[i]).nanos <= (#[trigger] times[j]).nanos
}

/// A rate limit holds over every span of time: a bucket pays for what it held at
/// the start and for what flowed in since, and for no admission more.
pub proof fn law_rate_is_limited(policy: Policy, tokens: int, start: Instant, times: Seq<Instant>)
    requires
        policy.requests_per_minute != 0,
        times.len() > 0,
        in_order(start, times),
        paid_for(policy, tokens, start, times) is Some,
    ensures
        times.len() * TOKEN <= tokens + (times.last().nanos - start.nanos)
            * policy.requests_per_minute,
{
    lemma_paid_for(policy, tokens, start, times);
}

proof fn lemma_paid_for(policy: Policy, tokens: int, start: Instant, times: Seq<Instant>)
    requires
        policy.requests_per_minute != 0,
        in_order(start, times),
        paid_for(policy, tokens, start, times) is Some,
    ensures
        ({
            let last = if times.len() == 0 {
                start
            } else {
                times.last()
            };
            &&& start.nanos <= last.nanos
            &&& paid_for(policy, tokens, start, times)->Some_0 + times.len() * TOKEN <= tokens + (
            last.nanos - start.nanos) * policy.requests_per_minute
            &&& times.len() > 0 ==> paid_for(policy, tokens, start, times)->Some_0 >= 0
        }),
    decreases times.len(),
{
    let rate = policy.requests_per_minute as int;
    if times.len() == 0 {
        assert(0 * rate == 0) by (nonlinear_arith);
    } else {
        let front = times.drop_last();
        assert(in_order(start, front));
        lemma_paid_for(policy, tokens, start, front);
        let since = if front.len() == 0 {
            start
        } else {
            front.last()
        };
        let last = times[times.len() - 1];
        assert(since.nanos <= last.nanos);
        let a = since.nanos - start.nanos;
        let b = last.nanos - since.nanos;
        assert((a + b) * rate == a * rate + b * rate) by (nonlinear_arith);
        assert(elapsed(since, last) == b);
        assert(times.len() * TOKEN == front.len() * TOKEN + TOKEN) by (nonlinear_arith)
            requires
                times.len() == front.len() + 1,
        ;
    }
}

/// The first in line looks again later than now and not after its deadline; where
/// that is before the deadline, the token then due is missed by at most what flows
/// in half a nanosecond. It looks no later than that: where a token is missing, the
/// wait is one nanosecond, or lets in at most half a nanosecond's flow too much.
pub proof fn law_wake_time(policy: Policy, tokens: int, now: Instant, deadline: Instant)
    requires
        now.nanos < deadline.nanos,
    ensures
        ({
            let wake = wake_time(policy, tokens, now, deadline);
            let rate = policy.requests_per_minute as int;
            &&& now.nanos < wake.nanos <= deadline.nanos
            &&& wake.nanos < deadline.nanos ==> 2 * (tokens + (wake.nanos - now.nanos) * rate) + rate
                >= 2 * TOKEN
            &&& rate != 0 && tokens < TOKEN ==> wake.nanos == now.nanos + 1 || 2 * (tokens + (
            wake.nanos - now.nanos) * rate) <= 2 * TOKEN + rate
            &&& rate == 0 || tokens >= TOKEN ==> wake == deadline
        }),
{
    let rate = policy.requests_per_minute as int;
    if policy.requests_per_minute != 0 && tokens < TOKEN {
        let missing = TOKEN - tokens;
        let span = refill_time(policy, tokens);
        let q = missing / rate;
        let r = missing % rate;
        assert(missing == rate * q + r && 0 <= r < rate) by (nonlinear_arith)
            requires
                rate > 0,
                q == missing / rate,
                r == missing % rate,
        ;
        assert(q >= 0) by (nonlinear_arith)
            requires
                missing == rate * q + r,
                missing > 0,
                0 <= r < rate,
        ;
        assert((q + 1) * rate == q * rate + rate) by (nonlinear_arith);
        assert(rate * q == q * rate) by (nonlinear_arith);
        assert(span >= 1);
        if span == q {
            assert(2 * r <= rate);
            assert(2 * (span * rate) + rate >= 2 * missing);
        } else if span == q + 1 {
            assert(2 * (span * rate) + rate >= 2 * missing);
        } else {
            assert(q == 0 && span == 1);
        }
        let wait = wake_time(policy, tokens, now, deadline).nanos - now.nanos;
        assert(wait <= span);
        assert(span == 1 || 2 * (span * rate) <= 2 * missing + rate);
        assert(wait * rate <= span * rate) by (nonlinear_arith)
            requires
                wait <= span,
                rate > 0,
        ;
    }
}

/// One bucket.
pub(crate) struct Bucket {
    pub(crate) policy: Policy,
    pub(crate) tokens: u128,
    pub(crate) updated: Instant,
    pub(crate) active: usize,
    pub(crate) queue: VecDeque<String>,
}

impl Bucket {
    pub(crate) open spec fn level(self) -> Level {
        Level { tokens: self.tokens as int, updated: self.updated, queue: ids(self.queue@) }
    }

    /// The budget is within the capacity.
    pub(crate) open spec fn bounded(self) -> bool {
        self.tokens <= capacity(self.policy)
    }

    /// A new bucket, full and unused.
    pub(crate) fn new(policy: Policy, now: Instant) -> (r: Bucket)
        ensures
            r.policy == policy,
            r.active == 0,
            r.level() == fresh(policy, now),
            r.bounded(),
    {
        let r = Bucket {
            policy,
            tokens: policy.burst as u128 * TOKEN,
            updated: now,
            active: 0,
            queue: VecDeque::new(),
        };
        assert(ids(r.queue@) == Seq::<Seq<char>>::empty());
        r
    }

    /// Whether the budget is complete.
    pub(crate) fn is_full(&self) -> (r: bool)
        ensures
            r == (self.tokens >= capacity(self.policy)),
    {
        self.tokens >= self.policy.burst as u128 * TOKEN
    }

    /// Brings the budget up to date.
    pub(crate) fn refill(&mut self, now: Instant)
        requires
            old(self).bounded(),
        ensures
            final(self).policy == old(self).policy,
            final(self).active == old(self).active,
            final(self).queue == old(self).queue,
            final(self).level() == refilled(old(self).policy, old(self).level(), now),
            final(self).bounded(),
    {
        let span: u128 = now.since(self.updated).nanos;
        let full: u128 = self.policy.burst as u128 * TOKEN;
        let rate: u128 = self.policy.requests_per_minute as u128;
        self.updated = now;
        if rate == 0 {
            self.tokens = full;
        } else {
            let room: u128 = full - self.tokens;
            let steps: u128 = room / rate;
            proof {
                assert(steps * rate <= room < (steps + 1) * rate) by (nonlinear_arith)
                    requires
                        rate > 0,
                        steps == room / rate,
                ;
                if span > steps {
                    assert(span * rate >= (steps + 1) * rate) by (nonlinear_arith)
                        requires
                            span >= steps + 1,
                            rate > 0,
                    ;
                } else {
                    assert(0 <= span * rate <= steps * rate) by (nonlinear_arith)
                        requires
                            0 <= span <= steps,
                            rate > 0,
                    ;
                }
            }
            if span > steps {
                self.tokens = full;
            } else {
                self.tokens = self.tokens + span * rate;
            }
        }
    }

    /// Whether an attempt can run now.
    pub(crate) fn available(&self) -> (r: bool)
        ensures
            r == available(self.policy, self.tokens as int, self.active as int),
    {
        (self.policy.max_concurrency == 0 || self.active < self.policy.max_concurrency) && (
        self.policy.requests_per_minute == 0 || self.tokens >= TOKEN)
    }

    /// Spends a token on an attempt that now runs.
    pub(crate) fn charge(&mut self)
        requires
            available(old(self).policy, old(self).tokens as int, old(self).active as int),
            old(self).active < usize::MAX,
        ensures
            final(self).policy == old(self).policy,
            final(self).updated == old(self).updated,
            final(self).queue == old(self).queue,
            final(self).tokens == spent(old(self).policy, old(self).tokens as int),
            final(self).active == old(self).active + 1,
    {
        if self.policy.requests_per_minute != 0 {
            self.tokens = self.tokens - TOKEN;
        }
        self.active = self.active + 1;
    }

    /// When the first in line looks again.
    pub(crate) fn wake_at(&self, now: Instant, deadline: Instant) -> (r: Instant)
        requires
            now.readable(),
        ensures
            r == wake_time(self.policy, self.tokens as int, now, deadline),
    {
        if self.policy.requests_per_minute != 0 && self.tokens < TOKEN {
            let missing: u128 = TOKEN - self.tokens;
            let rate: u128 = self.policy.requests_per_minute as u128;
            let whole: u128 = missing / rate;
            let part: u128 = missing % rate;
            proof {
                assert(whole <= missing) by (nonlinear_arith)
                    requires
                        rate > 0,
                        whole == missing / rate,
                ;
            }
            let mut span: u128 = whole;
            if 2 * part > rate || (2 * part == rate && whole % 2 == 1) {
                span = whole + 1;
            }
            if span < 1 {
                span = 1;
            }
            let due = now.plus(Duration { nanos: span });
            if due.nanos < deadline.nanos {
                return due;
            }
        }
        deadline
    }

    /// Whether a request is the first in line.
    pub(crate) fn is_first(&self, id: &str) -> (r: bool)
        ensures
            r == (self.queue@.len() > 0 && self.level().queue[0] == id@),
    {
        if self.queue.len() == 0 {
            return false;
        }
        same(self.queue[0].as_str(), id)
    }

    /// Takes a request out of the line; the others stay in order.
    pub(crate) fn leave(&mut self, id: &str)
        ensures
            final(self).policy == old(self).policy,
            final(self).tokens == old(self).tokens,
            final(self).updated == old(self).updated,
            final(self).active == old(self).active,
            final(self).level().queue == leaving(old(self).level().queue, id@),
    {
        let ghost before = self.queue@;
        let mut kept: VecDeque<String> = VecDeque::new();
        let mut i: usize = 0;
        let ghost keep = other_than(id@);
        while i < self.queue.len()
            invariant
                i <= self.queue@.len(),
                self.queue@ == before,
                keep == other_than(id@),
                ids(kept@) == ids(before).take(i as int).filter(keep),
                self.policy == old(self).policy,
                self.tokens == old(self).tokens,
                self.updated == old(self).updated,
                self.active == old(self).active,
            decreases self.queue@.len() - i,
        {
            let ghost line = ids(kept@);
            assert(ids(before).take(i + 1).drop_last() == ids(before).take(i as int));
            assert(ids(before).take(i + 1).last() == before[i as int]@);
            assert(ids(before).take(i + 1).filter(keep) == if before[i as int]@ != id@ {
                line.push(before[i as int]@)
            } else {
                line
            }) by {
                reveal(Seq::filter);
            }
            if !same(self.queue[i].as_str(), id) {
                kept.push_back(self.queue[i].clone());
                assert(ids(kept@) == line.push(before[i as int]@));
            }
            i += 1;
        }
        assert(ids(before).take(i as int) == ids(before));
        self.queue = kept;
    }
}

} // verus!
