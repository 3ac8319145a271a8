//! Every event keeps the admission state consistent.
use crate::bucket::{
    available, capacity, law_refill_is_bounded, leaving, other_than, refilled, spent, Level,
};
use crate::clock::Instant;
use crate::config::ConfigView;
use crate::state::{
    actives, attempted, begun, begun_inside, completed, consistent, deadline_from, detached,
    dropped, family, in_budget, initial, level_at, lined_up, needed, outer, outside, placed_on,
    polled, queued, reconfigured, rule, running, sound, stopped, swept, thinned, waits,
    with_level, with_room, Stage, State,
};
use vstd::prelude::*;

verus! {

/// What filtering leaves of a line.
pub proof fn lemma_filter<A>(line: Seq<A>, keep: spec_fn(A) -> bool)
    ensures
        forall|x: A| #[trigger] line.filter(keep).contains(x) <==> line.contains(x) && keep(x),
        line.no_duplicates() ==> line.filter(keep).no_duplicates(),
        (forall|x: A| line.contains(x) ==> #[trigger] keep(x)) ==> line.filter(keep) == line,
        line.filter(keep).len() <= line.len(),
    decreases line.len(),
{
    reveal(Seq::filter);
    if line.len() > 0 {
        let front = line.drop_last();
        let last = line.last();
        lemma_filter(front, keep);
        let kept = front.filter(keep);
        assert(line == front.push(last));
        assert forall|x: A| #[trigger] line.contains(x) <==> front.contains(x) || x == last by {
            if line.contains(x) {
                let i = choose|i: int| 0 <= i < line.len() && line[i] == x;
                if i < front.len() {
                    assert(front[i] == x);
                }
            }
            if front.contains(x) {
                let i = choose|i: int| 0 <= i < front.len() && front[i] == x;
                assert(line[i] == x);
            }
            assert(line[line.len() - 1] == last);
        }
        if keep(last) {
            assert(line.filter(keep) == kept.push(last));
            assert forall|x: A| #[trigger]
                line.filter(keep).contains(x) <==> kept.contains(x) || x == last by {
                let whole = kept.push(last);
                if whole.contains(x) {
                    let i = choose|i: int| 0 <= i < whole.len() && whole[i] == x;
                    if i < kept.len() {
                        assert(kept[i] == x);
                    }
                }
                if kept.contains(x) {
                    let i = choose|i: int| 0 <= i < kept.len() && kept[i] == x;
                    assert(whole[i] == x);
                }
                assert(whole[kept.len() as int] == last);
            }
            if line.no_duplicates() {
                assert(front.no_duplicates());
                assert(!front.contains(last)) by {
                    if front.contains(last) {
                        let i = choose|i: int| 0 <= i < front.len() && front[i] == last;
                        assert(line[i] == line[line.len() - 1]);
                    }
                }
                assert(!kept.contains(last));
            }
        } else {
            assert(line.contains(last));
            if line.no_duplicates() {
                assert(front.no_duplicates());
            }
        }
        if forall|x: A| line.contains(x) ==> #[trigger] keep(x) {
            assert(line.contains(last) && keep(last));
            assert forall|x: A| front.contains(x) implies #[trigger] keep(x) by {
                assert(line.contains(x));
            }
            assert(line.filter(keep) == line);
        }
    }
}

/// Of a line without repetition, taking one out leaves the others.
pub proof fn lemma_leaving(line: Seq<Seq<char>>, id: Seq<char>)
    ensures
        forall|x: Seq<char>| #[trigger]
            leaving(line, id).contains(x) <==> line.contains(x) && x != id,
        line.no_duplicates() ==> leaving(line, id).no_duplicates(),
        !line.contains(id) ==> leaving(line, id) == line,
{
    lemma_filter(line, other_than(id));
}

/// Moving one request changes the attempts that run on a credential by that one.
pub proof fn lemma_running(requests: Map<Seq<char>, Stage>, id: Seq<char>, stage: Stage, key: Seq<char>)
    requires
        requests.dom().finite(),
    ensures
        actives(requests, key).finite(),
        running(requests.insert(id, stage), key) == running(requests, key) - (if requests.dom().contains(
            id,
        ) && requests[id] == Stage::Active(key) {
            1int
        } else {
            0
        }) + (if stage == Stage::Active(key) {
            1int
        } else {
            0
        }),
        requests.dom().contains(id) && requests[id] == Stage::Active(key) ==> running(requests, key)
            >= 1,
{
    let before = actives(requests, key);
    let after = actives(requests.insert(id, stage), key);
    if stage == Stage::Active(key) {
        assert(after =~= before.insert(id));
    } else {
        assert(after =~= before.remove(id));
    }
}

/// Ending one request ends its attempt, where one runs.
pub proof fn lemma_running_less(requests: Map<Seq<char>, Stage>, id: Seq<char>, key: Seq<char>)
    requires
        requests.dom().finite(),
        !(requests.dom().contains(id) && requests[id] == Stage::Active(key)),
    ensures
        running(requests.remove(id), key) == running(requests, key),
{
    assert(actives(requests.remove(id), key) =~= actives(requests, key));
}

/// Moving one request within one bucket keeps requests and buckets in agreement.
pub proof fn lemma_move_sound(s: State, id: Seq<char>, stage: Stage, key: Seq<char>, level: Level)
    requires
        sound(s),
        s.requests.dom().contains(id),
        s.requests[id] is Queued ==> s.requests[id]->Queued_0 == key,
        match stage {
            Stage::Idle => !level.queue.contains(id),
            Stage::Active(k) => k == key && !level.queue.contains(id),
            Stage::Queued(k, _) => k == key && level.queue.contains(id),
        },
        level.queue.no_duplicates(),
        forall|x: Seq<char>|
            x != id ==> (#[trigger] level.queue.contains(x) <==> s.buckets.dom().contains(key)
                && s.buckets[key].queue.contains(x)),
        0 <= level.tokens <= capacity(rule(s, key)),
    ensures
        sound(
            State {
                requests: s.requests.insert(id, stage),
                buckets: s.buckets.insert(key, level),
                ..s
            },
        ),
{
    let next = State {
        requests: s.requests.insert(id, stage),
        buckets: s.buckets.insert(key, level),
        ..s
    };
    assert forall|x: Seq<char>| #[trigger] next.requests.dom().contains(x) implies match next.requests[x] {
        Stage::Idle => true,
        Stage::Active(k) => next.buckets.dom().contains(k),
        Stage::Queued(k, _) => next.buckets.dom().contains(k) && next.buckets[k].queue.contains(x),
    } by {
        if x != id {
            assert(s.requests.dom().contains(x));
            assert(level.queue.contains(x) <==> s.buckets.dom().contains(key)
                && s.buckets[key].queue.contains(x));
        }
    }
    assert forall|k: Seq<char>| #[trigger] next.buckets.dom().contains(k) implies lined_up(next, k)
        && in_budget(next, k) by {
        let queue = next.buckets[k].queue;
        if k != key {
            assert(s.buckets.dom().contains(k));
            assert(lined_up(s, k) && in_budget(s, k));
        }
        assert forall|i: int| 0 <= i < queue.len() implies waits(next, #[trigger] queue[i], k) by {
            let x = queue[i];
            assert(queue.contains(x));
            if k != key {
                assert(waits(s, s.buckets[k].queue[i], k));
                assert(x != id);
            } else if x != id {
                let j = choose|j: int|
                    0 <= j < s.buckets[key].queue.len() && s.buckets[key].queue[j] == x;
                assert(waits(s, s.buckets[key].queue[j], key));
            }
        }
    }
}

/// Writing a bucket's budget keeps requests and buckets in agreement.
pub proof fn lemma_level_sound(s: State, key: Seq<char>, level: Level)
    requires
        sound(s),
        s.buckets.dom().contains(key) ==> level.queue == s.buckets[key].queue,
        !s.buckets.dom().contains(key) ==> level.queue.len() == 0,
        0 <= level.tokens <= capacity(rule(s, key)),
    ensures
        sound(with_level(s, key, level)),
{
    let next = with_level(s, key, level);
    assert forall|k: Seq<char>| #[trigger] next.buckets.dom().contains(k) implies lined_up(next, k)
        && in_budget(next, k) by {
        if s.buckets.dom().contains(k) {
            assert(lined_up(s, k) && in_budget(s, k));
            assert forall|i: int| 0 <= i < next.buckets[k].queue.len() implies waits(
                next,
                #[trigger] next.buckets[k].queue[i],
                k,
            ) by {
                assert(waits(s, s.buckets[k].queue[i], k));
            }
        }
    }
}

/// Giving up a slot or a place in line keeps requests and buckets in agreement.
pub proof fn lemma_detached_sound(s: State, id: Seq<char>)
    requires
        sound(s),
    ensures
        sound(detached(s, id)),
        detached(s, id).requests.dom() == s.requests.dom(),
        detached(s, id).buckets.dom() == s.buckets.dom(),
{
    let next = detached(s, id);
    if s.requests.dom().contains(id) {
        match s.requests[id] {
            Stage::Idle => {},
            Stage::Active(key) => {
                assert(lined_up(s, key));
                assert(!s.buckets[key].queue.contains(id)) by {
                    if s.buckets[key].queue.contains(id) {
                        let i = choose|i: int|
                            0 <= i < s.buckets[key].queue.len() && s.buckets[key].queue[i] == id;
                        assert(waits(s, s.buckets[key].queue[i], key));
                    }
                }
                lemma_move_sound(s, id, Stage::Idle, key, s.buckets[key]);
                assert(s.buckets.insert(key, s.buckets[key]) =~= s.buckets);
            },
            Stage::Queued(key, _) => {
                assert(lined_up(s, key) && in_budget(s, key));
                lemma_leaving(s.buckets[key].queue, id);
                let level = Level { queue: leaving(s.buckets[key].queue, id), ..s.buckets[key] };
                lemma_move_sound(s, id, Stage::Idle, key, level);
            },
        }
        assert(next.requests.dom() =~= s.requests.dom());
        assert(next.buckets.dom() =~= s.buckets.dom());
    }
}

/// Of the live requests, only those in line for a credential wait for it.
pub proof fn lemma_not_in_line(s: State, id: Seq<char>, key: Seq<char>)
    requires
        sound(s),
        s.buckets.dom().contains(key),
        !waits(s, id, key),
    ensures
        !s.buckets[key].queue.contains(id),
{
    assert(lined_up(s, key));
    if s.buckets[key].queue.contains(id) {
        let i = choose|i: int| 0 <= i < s.buckets[key].queue.len() && s.buckets[key].queue[i] == id;
        assert(waits(s, s.buckets[key].queue[i], key));
    }
}

/// Leaving out idle, full buckets keeps requests and buckets in agreement.
pub proof fn lemma_swept_sound(s: State, now: Instant)
    requires
        sound(s),
    ensures
        sound(swept(s, now)),
        swept(s, now).buckets.len() <= s.buckets.len(),
{
    let next = swept(s, now);
    assert(next.buckets.dom().subset_of(s.buckets.dom()));
    vstd::set_lib::lemma_set_subset_finite(s.buckets.dom(), next.buckets.dom());
    vstd::set_lib::lemma_len_subset(next.buckets.dom(), s.buckets.dom());
    assert forall|x: Seq<char>| #[trigger] next.requests.dom().contains(x) implies match next.requests[x] {
        Stage::Idle => true,
        Stage::Active(k) => next.buckets.dom().contains(k),
        Stage::Queued(k, _) => next.buckets.dom().contains(k) && next.buckets[k].queue.contains(x),
    } by {
        assert(s.requests.dom().contains(x));
        match s.requests[x] {
            Stage::Idle => {},
            Stage::Active(k) => {
                lemma_running(s.requests, x, Stage::Idle, k);
                assert(needed(s, k, now));
            },
            Stage::Queued(k, _) => {
                assert(s.buckets[k].queue.len() > 0);
                assert(needed(s, k, now));
            },
        }
    }
    assert forall|k: Seq<char>| #[trigger] next.buckets.dom().contains(k) implies lined_up(next, k)
        && in_budget(next, k) by {
        assert(s.buckets.dom().contains(k));
        assert(lined_up(s, k) && in_budget(s, k));
        law_refill_is_bounded(rule(s, k), s.buckets[k], now);
        assert forall|i: int| 0 <= i < next.buckets[k].queue.len() implies waits(
            next,
            #[trigger] next.buckets[k].queue[i],
            k,
        ) by {
            assert(waits(s, s.buckets[k].queue[i], k));
        }
    }
}

/// The budget of a bucket that is looked at, and its line.
pub proof fn lemma_level_at(s: State, key: Seq<char>, now: Instant)
    requires
        sound(s),
    ensures
        0 <= level_at(s, key, now).tokens <= capacity(rule(s, key)),
        level_at(s, key, now).queue.no_duplicates(),
        s.buckets.dom().contains(key) ==> level_at(s, key, now).queue == s.buckets[key].queue,
        !s.buckets.dom().contains(key) ==> level_at(s, key, now).queue.len() == 0,
{
    if s.buckets.dom().contains(key) {
        assert(lined_up(s, key) && in_budget(s, key));
        law_refill_is_bounded(rule(s, key), s.buckets[key], now);
    }
}

/// A registration keeps the state consistent.
pub proof fn law_begin_keeps_consistency(s: State, id: Seq<char>)
    requires
        consistent(s),
    ensures
        consistent(begun(s, id).0),
{
    let next = begun(s, id).0;
    if next.requests != s.requests {
        lemma_new_sound(s, id);
    }
}

/// A new request that is idle agrees with the buckets.
pub proof fn lemma_new_sound(s: State, id: Seq<char>)
    requires
        sound(s),
        !s.requests.dom().contains(id),
    ensures
        sound(State { requests: s.requests.insert(id, Stage::Idle), ..s }),
{
    let next = State { requests: s.requests.insert(id, Stage::Idle), ..s };
    assert forall|x: Seq<char>| #[trigger] next.requests.dom().contains(x) implies match next.requests[x] {
        Stage::Idle => true,
        Stage::Active(k) => next.buckets.dom().contains(k),
        Stage::Queued(k, _) => next.buckets.dom().contains(k) && next.buckets[k].queue.contains(x),
    } by {
        if x != id {
            assert(s.requests.dom().contains(x));
        }
    }
    assert forall|k: Seq<char>| #[trigger] next.buckets.dom().contains(k) implies lined_up(next, k)
        && in_budget(next, k) by {
        assert(lined_up(s, k) && in_budget(s, k));
        assert forall|i: int| 0 <= i < next.buckets[k].queue.len() implies waits(
            next,
            #[trigger] next.buckets[k].queue[i],
            k,
        ) by {
            assert(waits(s, s.buckets[k].queue[i], k));
        }
    }
}

/// A nested registration keeps the state consistent.
pub proof fn law_begin_inside_keeps_consistency(s: State, id: Seq<char>, parent: Seq<char>)
    requires
        consistent(s),
    ensures
        consistent(begun_inside(s, id, parent).0),
{
    law_begin_keeps_consistency(s, id);
}

/// A look at the line keeps requests and buckets in agreement.
pub proof fn lemma_polled_sound(s: State, id: Seq<char>, now: Instant)
    requires
        sound(s),
    ensures
        sound(polled(s, id, now).0),
        polled(s, id, now).0.requests.dom() == s.requests.dom(),
        polled(s, id, now).0.parents == s.parents,
        polled(s, id, now).0.config == s.config,
{
    lemma_detached_sound(s, id);
    if !s.stopping && s.requests.dom().contains(id) && s.requests[id] is Queued {
        let key = s.requests[id]->Queued_0;
        let deadline = s.requests[id]->Queued_1;
        if now.nanos < deadline.nanos {
            let policy = rule(s, key);
            let level = refilled(policy, s.buckets[key], now);
            assert(s.buckets.dom().contains(key));
            lemma_level_at(s, key, now);
            lemma_level_sound(s, key, level);
            assert(with_level(s, key, level).requests.dom().contains(id));
            lemma_detached_sound(with_level(s, key, level), id);
            let first = level.queue.len() > 0 && level.queue[0] == id;
            if policy.enabled && first && available(
                policy,
                level.tokens,
                running(s.requests, key),
            ) {
                lemma_first_leaves(level.queue);
                lemma_move_sound(
                    s,
                    id,
                    Stage::Active(key),
                    key,
                    Level {
                        queue: level.queue.drop_first(),
                        tokens: spent(policy, level.tokens),
                        ..level
                    },
                );
                assert(polled(s, id, now).0.requests.dom() =~= s.requests.dom());
            }
        }
    }
}

/// The first leaves the line, the others stay.
pub proof fn lemma_first_leaves(line: Seq<Seq<char>>)
    requires
        line.len() > 0,
        line.no_duplicates(),
    ensures
        line.drop_first().no_duplicates(),
        forall|x: Seq<char>| #[trigger]
            line.drop_first().contains(x) <==> line.contains(x) && x != line[0],
{
    let rest = line.drop_first();
    assert forall|x: Seq<char>| #[trigger]
        rest.contains(x) <==> line.contains(x) && x != line[0] by {
        if rest.contains(x) {
            let i = choose|i: int| 0 <= i < rest.len() && rest[i] == x;
            assert(line[i + 1] == x);
        }
        if line.contains(x) && x != line[0] {
            let i = choose|i: int| 0 <= i < line.len() && line[i] == x;
            assert(rest[i - 1] == x);
        }
    }
}

/// Joining the line keeps requests and buckets in agreement.
pub proof fn lemma_queued_sound(
    s: State,
    id: Seq<char>,
    key: Seq<char>,
    level: Level,
    deadline: Instant,
)
    requires
        sound(s),
        s.requests.dom().contains(id),
        s.requests[id] is Idle,
        level.queue.no_duplicates(),
        s.buckets.dom().contains(key) ==> level.queue == s.buckets[key].queue,
        !s.buckets.dom().contains(key) ==> level.queue.len() == 0,
        0 <= level.tokens <= capacity(rule(s, key)),
    ensures
        sound(queued(s, id, key, level, deadline)),
{
    if s.buckets.dom().contains(key) {
        lemma_not_in_line(s, id, key);
    }
    let line = level.queue.push(id);
    assert(!level.queue.contains(id));
    assert(line[level.queue.len() as int] == id);
    assert forall|x: Seq<char>| x != id implies (#[trigger] line.contains(x) <==> s.buckets.dom().contains(
        key,
    ) && s.buckets[key].queue.contains(x)) by {
        if line.contains(x) {
            let i = choose|i: int| 0 <= i < line.len() && line[i] == x;
            assert(level.queue[i] == x);
        }
        if level.queue.contains(x) {
            let i = choose|i: int| 0 <= i < level.queue.len() && level.queue[i] == x;
            assert(line[i] == x);
        }
    }
    lemma_move_sound(s, id, Stage::Queued(key, deadline), key, Level { queue: line, ..level });
}

/// Placing an attempt keeps requests and buckets in agreement.
pub proof fn lemma_placed_on_sound(s: State, id: Seq<char>, key: Seq<char>, now: Instant)
    requires
        sound(s),
        s.requests.dom().contains(id),
        s.requests[id] is Idle,
    ensures
        sound(placed_on(s, id, key, now).0),
        placed_on(s, id, key, now).0.requests.dom() == s.requests.dom(),
        placed_on(s, id, key, now).0.parents == s.parents,
        placed_on(s, id, key, now).0.config == s.config,
{
    let policy = rule(s, key);
    let level = level_at(s, key, now);
    lemma_level_at(s, key, now);
    if level.queue.len() == 0 && available(policy, level.tokens, running(s.requests, key)) {
        lemma_move_sound(
            s,
            id,
            Stage::Active(key),
            key,
            Level { tokens: spent(policy, level.tokens), ..level },
        );
        assert(placed_on(s, id, key, now).0.requests.dom() =~= s.requests.dom());
    } else if level.queue.len() >= policy.max_queue {
        lemma_level_sound(s, key, level);
    } else {
        let deadline = deadline_from(policy, now);
        lemma_queued_sound(s, id, key, level, deadline);
        let line = queued(s, id, key, level, deadline);
        lemma_polled_sound(line, id, now);
        assert(line.requests.dom() =~= s.requests.dom());
    }
}

/// An attempt keeps requests and buckets in agreement.
pub proof fn lemma_attempted_sound(s: State, id: Seq<char>, key: Seq<char>, now: Instant)
    requires
        sound(s),
    ensures
        sound(attempted(s, id, key, now).0),
        attempted(s, id, key, now).0.requests.dom() == s.requests.dom(),
        attempted(s, id, key, now).0.parents == s.parents,
        attempted(s, id, key, now).0.config == s.config,
{
    lemma_detached_sound(s, id);
    let free = detached(s, id);
    lemma_swept_sound(free, now);
    let ready = with_room(free, key, now);
    if !s.stopping && s.requests.dom().contains(id) && !(s.requests[id] is Queued) {
        lemma_placed_on_sound(ready, id, key, now);
    }
}

/// An attempt keeps the state consistent.
pub proof fn law_attempt_keeps_consistency(s: State, id: Seq<char>, key: Seq<char>, now: Instant)
    requires
        consistent(s),
    ensures
        consistent(attempted(s, id, key, now).0),
{
    lemma_attempted_sound(s, id, key, now);
}

/// A look at the line keeps the state consistent.
pub proof fn law_poll_keeps_consistency(s: State, id: Seq<char>, now: Instant)
    requires
        consistent(s),
    ensures
        consistent(polled(s, id, now).0),
{
    lemma_polled_sound(s, id, now);
}

/// Dropping requests keeps the others and their buckets in agreement.
pub proof fn lemma_dropped_sound(s: State, gone: Set<Seq<char>>)
    requires
        sound(s),
    ensures
        sound(dropped(s, gone)),
        dropped(s, gone).buckets.dom() == s.buckets.dom(),
{
    let next = dropped(s, gone);
    assert(next.requests.dom().subset_of(s.requests.dom()));
    vstd::set_lib::lemma_set_subset_finite(s.requests.dom(), next.requests.dom());
    assert(next.buckets.dom() =~= s.buckets.dom());
    let keep = outside(gone);
    assert forall|x: Seq<char>| #[trigger] next.requests.dom().contains(x) implies match next.requests[x] {
        Stage::Idle => true,
        Stage::Active(k) => next.buckets.dom().contains(k),
        Stage::Queued(k, _) => next.buckets.dom().contains(k) && next.buckets[k].queue.contains(x),
    } by {
        assert(s.requests.dom().contains(x) && !gone.contains(x));
        if s.requests[x] is Queued {
            lemma_filter(s.buckets[s.requests[x]->Queued_0].queue, keep);
        }
    }
    assert forall|k: Seq<char>| #[trigger] next.buckets.dom().contains(k) implies lined_up(next, k)
        && in_budget(next, k) by {
        assert(s.buckets.dom().contains(k));
        assert(lined_up(s, k) && in_budget(s, k));
        let line = s.buckets[k].queue;
        lemma_filter(line, keep);
        assert forall|i: int| 0 <= i < next.buckets[k].queue.len() implies waits(
            next,
            #[trigger] next.buckets[k].queue[i],
            k,
        ) by {
            let x = next.buckets[k].queue[i];
            assert(line.filter(keep).contains(x));
            let j = choose|j: int| 0 <= j < line.len() && line[j] == x;
            assert(waits(s, s.buckets[k].queue[j], k));
        }
    }
}

/// Filtering twice is filtering by both.
pub proof fn lemma_filter_twice<A>(
    line: Seq<A>,
    first: spec_fn(A) -> bool,
    second: spec_fn(A) -> bool,
    both: spec_fn(A) -> bool,
)
    requires
        forall|x: A| #[trigger] both(x) == (first(x) && second(x)),
    ensures
        line.filter(first).filter(second) == line.filter(both),
    decreases line.len(),
{
    reveal(Seq::filter);
    if line.len() > 0 {
        lemma_filter_twice(line.drop_last(), first, second, both);
        let kept = line.drop_last().filter(first);
        if first(line.last()) {
            assert(kept.push(line.last()).drop_last() == kept);
        }
        assert(both(line.last()) == (first(line.last()) && second(line.last())));
    }
}

/// Dropping requests one by one drops them all.
pub proof fn lemma_dropped_one_more(s: State, gone: Set<Seq<char>>, id: Seq<char>)
    requires
        sound(s),
    ensures
        ({
            let before = dropped(s, gone);
            let after = dropped(s, gone.insert(id));
            let alone = detached(before, id);
            &&& after.requests == alone.requests.remove(id)
            &&& after.parents == before.parents.remove(id)
            &&& after.buckets == alone.buckets
        }),
{
    let before = dropped(s, gone);
    let after = dropped(s, gone.insert(id));
    let alone = detached(before, id);
    lemma_dropped_sound(s, gone);
    lemma_detached_sound(before, id);
    assert(after.requests =~= alone.requests.remove(id));
    assert(after.parents =~= before.parents.remove(id));
    assert forall|key: Seq<char>| s.buckets.dom().contains(key) implies thinned(
        s.buckets[key],
        gone.insert(id),
    ) == #[trigger] alone.buckets[key] by {
        lemma_filter_twice(
            s.buckets[key].queue,
            outside(gone),
            other_than(id),
            outside(gone.insert(id)),
        );
        if !waits(before, id, key) {
            lemma_not_in_line(before, id, key);
            lemma_leaving(before.buckets[key].queue, id);
        }
    }
    assert(after.buckets =~= alone.buckets);
}

/// Dropping nobody changes nothing.
pub proof fn lemma_dropped_none(s: State)
    ensures
        dropped(s, Set::empty()) == s,
{
    let next = dropped(s, Set::empty());
    assert(next.requests =~= s.requests);
    assert(next.parents =~= s.parents);
    assert forall|key: Seq<char>| s.buckets.dom().contains(key) implies next.buckets[key]
        == #[trigger] s.buckets[key] by {
        lemma_filter(s.buckets[key].queue, outside(Set::empty()));
    }
    assert(next.buckets =~= s.buckets);
}

/// What holds a request, and with every request all that is nested in it, holds
/// its family.
pub proof fn lemma_family_least(
    parents: Map<Seq<char>, Seq<char>>,
    id: Seq<char>,
    closed: Set<Seq<char>>,
)
    requires
        closed.contains(id),
        forall|child: Seq<char>| #[trigger]
            parents.dom().contains(child) && closed.contains(parents[child]) ==> closed.contains(
                child,
            ),
    ensures
        family(parents, id).subset_of(closed),
{
    assert forall|x: Seq<char>| family(parents, id).contains(x) implies closed.contains(x) by {
        let n = choose|n: nat| #[trigger] outer(parents, x, n) == Some(id);
        lemma_inside_closed(parents, id, closed, x, n);
    }
}

proof fn lemma_inside_closed(
    parents: Map<Seq<char>, Seq<char>>,
    id: Seq<char>,
    closed: Set<Seq<char>>,
    x: Seq<char>,
    n: nat,
)
    requires
        closed.contains(id),
        forall|child: Seq<char>| #[trigger]
            parents.dom().contains(child) && closed.contains(parents[child]) ==> closed.contains(
                child,
            ),
        outer(parents, x, n) == Some(id),
    ensures
        closed.contains(x),
    decreases n,
{
    if n > 0 {
        lemma_inside_closed(parents, id, closed, parents[x], (n - 1) as nat);
    }
}

/// A family holds the request itself and everything nested in its members.
pub proof fn lemma_family(parents: Map<Seq<char>, Seq<char>>, id: Seq<char>)
    ensures
        family(parents, id).contains(id),
        forall|child: Seq<char>| #[trigger]
            parents.dom().contains(child) && family(parents, id).contains(parents[child])
                ==> family(parents, id).contains(child),
{
    assert(outer(parents, id, 0) == Some(id));
    assert forall|child: Seq<char>| #[trigger]
        parents.dom().contains(child) && family(parents, id).contains(parents[child]) implies family(
        parents,
        id,
    ).contains(child) by {
        let n = choose|n: nat| #[trigger] outer(parents, parents[child], n) == Some(id);
        assert(outer(parents, child, (n + 1) as nat) == Some(id));
    }
}

/// A completion keeps the state consistent.
pub proof fn law_complete_keeps_consistency(s: State, id: Seq<char>)
    requires
        consistent(s),
    ensures
        consistent(completed(s, id)),
{
    let gone = family(s.parents, id);
    lemma_dropped_sound(s, gone);
    lemma_family(s.parents, id);
    let next = completed(s, id);
    assert forall|x: Seq<char>| #[trigger] next.parents.dom().contains(x) implies next.requests.dom().contains(
        x,
    ) && next.requests.dom().contains(next.parents[x]) by {
        assert(s.parents.dom().contains(x) && !gone.contains(x));
    }
}

/// A new configuration keeps the state consistent.
pub proof fn law_reconfigure_keeps_consistency(s: State, config: ConfigView, now: Instant)
    requires
        consistent(s),
    ensures
        consistent(reconfigured(s, config, now)),
{
    let next = reconfigured(s, config, now);
    assert(next.buckets.dom() =~= s.buckets.dom());
    assert forall|x: Seq<char>| #[trigger] next.requests.dom().contains(x) implies match next.requests[x] {
        Stage::Idle => true,
        Stage::Active(k) => next.buckets.dom().contains(k),
        Stage::Queued(k, _) => next.buckets.dom().contains(k) && next.buckets[k].queue.contains(x),
    } by {
        assert(s.requests.dom().contains(x));
    }
    assert forall|k: Seq<char>| #[trigger] next.buckets.dom().contains(k) implies lined_up(next, k)
        && in_budget(next, k) by {
        assert(s.buckets.dom().contains(k));
        assert(lined_up(s, k) && in_budget(s, k));
        law_refill_is_bounded(rule(s, k), s.buckets[k], now);
        assert forall|i: int| 0 <= i < next.buckets[k].queue.len() implies waits(
            next,
            #[trigger] next.buckets[k].queue[i],
            k,
        ) by {
            assert(waits(s, s.buckets[k].queue[i], k));
        }
    }
}

/// Stopping keeps the state consistent.
pub proof fn law_stop_keeps_consistency(s: State)
    requires
        consistent(s),
    ensures
        consistent(stopped(s)),
{
    let next = stopped(s);
    assert forall|k: Seq<char>| #[trigger] next.buckets.dom().contains(k) implies lined_up(next, k)
        && in_budget(next, k) by {
        assert(lined_up(s, k) && in_budget(s, k));
        assert forall|i: int| 0 <= i < next.buckets[k].queue.len() implies waits(
            next,
            #[trigger] next.buckets[k].queue[i],
            k,
        ) by {
            assert(waits(s, s.buckets[k].queue[i], k));
        }
    }
}

/// The first state is consistent.
pub proof fn law_initial_is_consistent(config: ConfigView)
    ensures
        consistent(initial(config)),
{
}

} // verus!
