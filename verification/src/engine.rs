//! The admission engine: token buckets, concurrency limits and waiting lines, one
//! set per credential.
use crate::bucket::{
    available, fresh, ids, leaving, other_than, refilled, spent, Bucket, Level, TOKEN,
};
use crate::clock::{Duration, Instant};
use crate::config::{policy_for, Config, ConfigView};
use crate::error_mapping::{mapped, outcome, reports, RetryableError};
use crate::json::Json;
use crate::state::{
    actives, admitted, attempted, begun, begun_inside, completed, consistent, deadline_from,
    detached, dropped, family, in_budget, initial, level_at, lined_up, needed, placed_on,
    polled, queued, reconfiguration, reconfigured, recut, related, rule, running,
    running_requests, sound, stopped, swept, tally, waiting_requests, waits, with_level, Stage,
    State,
};
use crate::table::{
    distinct, lemma_map_len, lemma_map_of, lemma_map_update, map_of, stands_at, Table,
};
use crate::text::same;
use crate::upkeep::{
    law_begin_inside_keeps_consistency, law_begin_keeps_consistency,
    law_complete_keeps_consistency, law_reconfigure_keeps_consistency,
    law_stop_keeps_consistency, lemma_attempted_sound, lemma_detached_sound, lemma_dropped_none,
    lemma_dropped_one_more, lemma_dropped_sound, lemma_family, lemma_family_least,
    lemma_first_leaves, lemma_leaving, lemma_level_at, lemma_level_sound, lemma_move_sound,
    lemma_polled_sound, lemma_queued_sound, lemma_running, lemma_running_less,
    lemma_swept_sound,
};
use vstd::hash_map::StringHashMap;
use vstd::prelude::*;

verus! {

broadcast use vstd::string::group_string_axioms;

/// What a policy is about. Credentials are opaque identifiers of the host, never
/// secrets of an upstream or names of models.
#[derive(Debug, Eq, Hash, PartialEq)]
pub enum ScopeKey {
    Credential(String),
}

impl View for ScopeKey {
    type V = Seq<char>;

    open spec fn view(&self) -> Seq<char> {
        match self {
            ScopeKey::Credential(id) => id@,
        }
    }
}

impl Clone for ScopeKey {
    fn clone(&self) -> (r: Self)
        ensures
            r@ == self@,
    {
        match self {
            ScopeKey::Credential(id) => ScopeKey::Credential(id.clone()),
        }
    }
}

impl ScopeKey {
    /// The identifier of the credential.
    pub fn credential(&self) -> (r: &str)
        ensures
            r@ == self@,
    {
        match self {
            ScopeKey::Credential(id) => id.as_str(),
        }
    }
}

/// Why a request is turned away.
#[derive(Clone, Copy, Debug, Eq, PartialEq, Structural)]
pub enum Rejection {
    QueueFull,
    QueueTimeout,
    RequestEnded,
    DuplicateWait,
    Capacity,
    Stopping,
}

/// What becomes of an attempt.
#[derive(Clone, Copy, Debug, Eq, PartialEq, Structural)]
pub enum Decision {
    Admit,
    /// To be looked at again, at this time at the latest.
    WaitUntil(Instant),
    Reject(Rejection),
}

/// Where a request stands.
enum Phase {
    Idle,
    Active(ScopeKey),
    Queued { key: ScopeKey, deadline: Instant },
}

impl Phase {
    spec fn stage(self) -> Stage {
        match self {
            Phase::Idle => Stage::Idle,
            Phase::Active(key) => Stage::Active(key@),
            Phase::Queued { key, deadline } => Stage::Queued(key@, deadline),
        }
    }
}

/// Decides which attempts run, which wait and which are turned away. Every call is
/// one event; who shares an engine between threads calls it under a lock.
pub struct Engine {
    config: Config,
    requests: StringHashMap<Phase>,
    parents: StringHashMap<String>,
    children: StringHashMap<Vec<String>>,
    buckets: Table<Bucket>,
    stopping: bool,
}

spec fn stages(phases: Map<Seq<char>, Phase>) -> Map<Seq<char>, Stage> {
    Map::new(|id: Seq<char>| phases.dom().contains(id), |id: Seq<char>| phases[id].stage())
}

spec fn names(owned: Map<Seq<char>, String>) -> Map<Seq<char>, Seq<char>> {
    Map::new(|id: Seq<char>| owned.dom().contains(id), |id: Seq<char>| owned[id]@)
}

spec fn levels(buckets: Map<Seq<char>, Bucket>) -> Map<Seq<char>, Level> {
    Map::new(|key: Seq<char>| buckets.dom().contains(key), |key: Seq<char>| buckets[key].level())
}

impl View for Engine {
    type V = State;

    closed spec fn view(&self) -> State {
        State {
            config: self.config@,
            requests: stages(self.requests@),
            parents: names(self.parents@),
            buckets: levels(self.buckets.map()),
            stopping: self.stopping,
        }
    }
}

/// The lists of nested requests say what the outer links say.
spec fn kin(parents: Map<Seq<char>, Seq<char>>, children: Map<Seq<char>, Vec<String>>) -> bool {
    &&& children.dom().finite()
    &&& forall|parent: Seq<char>, child: Seq<char>|
        #![trigger children.dom().contains(parent), parents.dom().contains(child)]
        children.dom().contains(parent) ==> (ids(children[parent]@).contains(child)
            <==> parents.dom().contains(child) && parents[child] == parent)
    &&& forall|child: Seq<char>| #[trigger]
        parents.dom().contains(child) ==> children.dom().contains(parents[child])
}

impl Engine {
    /// The buckets follow their policies and count the attempts that run.
    spec fn kept(&self) -> bool {
        &&& sound(self@)
        &&& distinct(self.buckets@)
        &&& forall|key: Seq<char>| #[trigger]
            self.buckets.map().dom().contains(key) ==> {
                &&& self.buckets.map()[key].policy == policy_for(self.config@, key)
                &&& self.buckets.map()[key].active == running(self@.requests, key)
            }
    }

    /// What every engine keeps.
    pub closed spec fn wf(&self) -> bool {
        &&& self.kept()
        &&& related(self@)
        &&& kin(self@.parents, self.children@)
    }

    /// An engine without requests.
    pub fn new(config: Config) -> (r: Engine)
        ensures
            r.wf(),
            r@ == initial(config@),
    {
        let r = Engine {
            config,
            requests: StringHashMap::new(),
            parents: StringHashMap::new(),
            children: StringHashMap::new(),
            buckets: Table::new(),
            stopping: false,
        };
        proof {
            assert(r@.requests =~= Map::empty());
            assert(r@.parents =~= Map::empty());
            assert(r@.buckets =~= Map::empty());
        }
        r
    }

    /// Registers a request.
    pub fn begin(&mut self, id: &str) -> (r: Result<(), Rejection>)
        requires
            old(self).wf(),
        ensures
            final(self).wf(),
            begun(old(self)@, id@) == (final(self)@, r),
    {
        if self.stopping {
            return Err(Rejection::Stopping);
        }
        if self.requests.contains_key(id) {
            return Ok(());
        }
        assert(self@.requests.dom() =~= self.requests@.dom());
        if self.requests.len() >= self.config.max_tracked_requests {
            return Err(Rejection::Capacity);
        }
        proof {
            law_begin_keeps_consistency(self@, id@);
        }
        self.requests.insert(id.to_string(), Phase::Idle);
        proof {
            assert(self@.requests =~= old(self)@.requests.insert(id@, Stage::Idle));
            assert forall|key: Seq<char>| #[trigger]
                self.buckets.map().dom().contains(key) implies self.buckets.map()[key].active
                == running(self@.requests, key) by {
                lemma_running(old(self)@.requests, id@, Stage::Idle, key);
            }
        }
        Ok(())
    }

    /// Registers a request inside another one. The other one must be live, and the
    /// new one not yet known: a late call must not revive a request that ended.
    pub fn begin_child(&mut self, id: &str, parent: &str) -> (r: Result<(), Rejection>)
        requires
            old(self).wf(),
        ensures
            final(self).wf(),
            begun_inside(old(self)@, id@, parent@) == (final(self)@, r),
    {
        if same(id, parent) || !self.requests.contains_key(parent) || self.requests.contains_key(
            id,
        ) {
            return Err(Rejection::RequestEnded);
        }
        proof {
            law_begin_inside_keeps_consistency(self@, id@, parent@);
        }
        match self.begin(id) {
            Ok(()) => {},
            Err(reason) => {
                return Err(reason);
            },
        }
        let ghost middle = *self;
        self.parents.insert(id.to_string(), parent.to_string());
        let mut list: Vec<String> = match self.children.get(parent) {
            Some(list) => copy_list(list),
            None => Vec::new(),
        };
        let ghost before = list@;
        list.push(id.to_string());
        self.children.insert(parent.to_string(), list);
        proof {
            assert(self@.parents =~= middle@.parents.insert(id@, parent@));
            assert(self@.requests == middle@.requests);
            assert(ids(list@) =~= ids(before).push(id@));
            let parents = self@.parents;
            let children = self.children@;
            assert(!old(self)@.parents.dom().contains(id@));
            assert forall|p: Seq<char>, c: Seq<char>|
                #![trigger children.dom().contains(p), parents.dom().contains(c)]
                children.dom().contains(p) implies (ids(children[p]@).contains(c)
                <==> parents.dom().contains(c) && parents[c] == p) by {
                let had = middle.children@.dom().contains(p);
                let known = middle@.parents.dom().contains(c);
                if had {
                    assert(ids(middle.children@[p]@).contains(c)
                        <==> middle@.parents.dom().contains(c) && middle@.parents[c] == p);
                }
                if p == parent@ {
                    lemma_pushed(ids(before), id@, c);
                    if !had {
                        assert(ids(before).len() == 0);
                        if middle@.parents.dom().contains(c) {
                            assert(middle@.parents[c] != p);
                        }
                    }
                }
            }
            assert forall|c: Seq<char>| #[trigger] parents.dom().contains(c) implies children.dom().contains(
                parents[c],
            ) by {
                if c != id@ {
                    assert(middle@.parents.dom().contains(c));
                }
            }
        }
        Ok(())
    }
}

/// Writing a bucket writes what the credential's bucket holds.
proof fn lemma_written(before: Seq<(Seq<char>, Bucket)>, i: int, bucket: Bucket)
    requires
        distinct(before),
        0 <= i < before.len(),
    ensures
        distinct(before.update(i, (before[i].0, bucket))),
        map_of(before.update(i, (before[i].0, bucket))) == map_of(before).insert(
            before[i].0,
            bucket,
        ),
        levels(map_of(before.update(i, (before[i].0, bucket)))) == levels(map_of(before)).insert(
            before[i].0,
            bucket.level(),
        ),
{
    lemma_map_update(before, i, bucket);
    lemma_map_of(before);
    assert(levels(map_of(before).insert(before[i].0, bucket)) =~= levels(map_of(before)).insert(
        before[i].0,
        bucket.level(),
    ));
}

impl Engine {
    /// A request gives up its slot, or its place in line.
    fn detach(&mut self, id: &str)
        requires
            old(self).kept(),
        ensures
            final(self).kept(),
            final(self)@ == detached(old(self)@, id@),
            final(self).config == old(self).config,
            final(self).parents == old(self).parents,
            final(self).children == old(self).children,
            final(self).stopping == old(self).stopping,
    {
        proof {
            lemma_detached_sound(self@, id@);
        }
        let ghost before = *self;
        let ghost table = self.buckets@;
        assert(self@.requests.dom() =~= self.requests@.dom());
        match self.requests.get(id) {
            None => {},
            Some(Phase::Idle) => {},
            Some(Phase::Active(key)) => {
                assert(before@.requests.dom().contains(id@));
                assert(before@.requests[id@] == Stage::Active(key@));
                if let Some(i) = self.buckets.position(key.credential()) {
                    let ghost held = self.buckets@[i as int].1;
                    proof {
                        lemma_running(before@.requests, id@, Stage::Idle, key@);
                    }
                    let bucket = self.buckets.value_at_mut(i);
                    bucket.active = bucket.active - 1;
                    proof {
                        let next = Bucket { active: (held.active - 1) as usize, ..held };
                        lemma_written(table, i as int, next);
                        assert(levels(self.buckets.map()) =~= before@.buckets);
                    }
                }
                self.requests.insert(id.to_string(), Phase::Idle);
                proof {
                    assert(self@.requests =~= before@.requests.insert(id@, Stage::Idle));
                    assert forall|k: Seq<char>| #[trigger]
                        self.buckets.map().dom().contains(k) implies self.buckets.map()[k].policy
                        == policy_for(self.config@, k) && self.buckets.map()[k].active == running(
                        self@.requests,
                        k,
                    ) by {
                        lemma_running(before@.requests, id@, Stage::Idle, k);
                        assert(before.buckets.map().dom().contains(k));
                    }
                }
            },
            Some(Phase::Queued { key, deadline: _ }) => {
                assert(before@.requests.dom().contains(id@));
                assert(before@.requests[id@] is Queued && before@.requests[id@]->Queued_0 == key@);
                if let Some(i) = self.buckets.position(key.credential()) {
                    let bucket = self.buckets.value_at_mut(i);
                    bucket.leave(id);
                    proof {
                        lemma_written(table, i as int, self.buckets@[i as int].1);
                    }
                }
                self.requests.insert(id.to_string(), Phase::Idle);
                proof {
                    assert(self@.requests =~= before@.requests.insert(id@, Stage::Idle));
                    assert forall|k: Seq<char>| #[trigger]
                        self.buckets.map().dom().contains(k) implies self.buckets.map()[k].policy
                        == policy_for(self.config@, k) && self.buckets.map()[k].active == running(
                        self@.requests,
                        k,
                    ) by {
                        lemma_running(before@.requests, id@, Stage::Idle, k);
                        assert(before.buckets.map().dom().contains(k));
                    }
                }
            },
        }
    }
}

/// A live request that does not run on a credential is one more than those that do.
proof fn lemma_room_to_run(requests: Map<Seq<char>, Stage>, id: Seq<char>, key: Seq<char>)
    requires
        requests.dom().finite(),
        requests.dom().contains(id),
        requests[id] != Stage::Active(key),
    ensures
        running(requests, key) < requests.len(),
{
    let rest = requests.dom().remove(id);
    assert(actives(requests, key).subset_of(rest));
    vstd::set_lib::lemma_len_subset(actives(requests, key), rest);
}

impl Engine {
    /// Brings a bucket up to date.
    fn refill(&mut self, i: usize, now: Instant)
        requires
            old(self).kept(),
            i < old(self).buckets@.len(),
        ensures
            final(self).kept(),
            ({
                let key = old(self).buckets@[i as int].0;
                &&& final(self)@ == with_level(
                    old(self)@,
                    key,
                    refilled(rule(old(self)@, key), old(self)@.buckets[key], now),
                )
                &&& final(self).buckets@.len() == old(self).buckets@.len()
                &&& final(self).buckets@[i as int].0 == key
            }),
            final(self).config == old(self).config,
            final(self).requests == old(self).requests,
            final(self).parents == old(self).parents,
            final(self).children == old(self).children,
            final(self).stopping == old(self).stopping,
    {
        let ghost before = *self;
        let ghost table = self.buckets@;
        let ghost key = table[i as int].0;
        proof {
            lemma_map_of(table);
            assert(before.buckets.map().dom().contains(key));
            assert(before@.buckets.dom().contains(key));
            assert(in_budget(before@, key));
            lemma_level_at(before@, key, now);
            lemma_level_sound(before@, key, refilled(rule(before@, key), before@.buckets[key], now));
        }
        let bucket = self.buckets.value_at_mut(i);
        bucket.refill(now);
        proof {
            lemma_written(table, i as int, self.buckets@[i as int].1);
        }
    }

    /// Lets an attempt run: its token is spent, and it leaves the line where it
    /// was the first in it.
    fn let_run(&mut self, i: usize, id: &str, first: bool)
        requires
            old(self).kept(),
            i < old(self).buckets@.len(),
            ({
                let key = old(self).buckets@[i as int].0;
                let level = old(self)@.buckets[key];
                &&& old(self)@.requests.dom().contains(id@)
                &&& available(
                    rule(old(self)@, key),
                    level.tokens,
                    running(old(self)@.requests, key),
                )
                &&& if first {
                    waits(old(self)@, id@, key) && level.queue.len() > 0 && level.queue[0] == id@
                } else {
                    old(self)@.requests[id@] is Idle && level.queue.len() == 0
                }
            }),
        ensures
            final(self).kept(),
            ({
                let key = old(self).buckets@[i as int].0;
                let level = old(self)@.buckets[key];
                final(self)@ == admitted(
                    old(self)@,
                    id@,
                    key,
                    Level {
                        queue: if first {
                            level.queue.drop_first()
                        } else {
                            level.queue
                        },
                        ..level
                    },
                )
            }),
            final(self).config == old(self).config,
            final(self).parents == old(self).parents,
            final(self).children == old(self).children,
            final(self).stopping == old(self).stopping,
    {
        broadcast use vstd::hash_map::group_hash_map_axioms;

        let ghost before = *self;
        let ghost table = self.buckets@;
        let ghost key = table[i as int].0;
        let ghost level = before@.buckets[key];
        let ghost next = Level {
            queue: if first {
                level.queue.drop_first()
            } else {
                level.queue
            },
            tokens: spent(rule(before@, key), level.tokens),
            ..level
        };
        proof {
            lemma_map_of(table);
            assert(before.buckets.map().dom().contains(key));
            assert(before@.buckets.dom().contains(key));
            assert(in_budget(before@, key) && lined_up(before@, key));
            if first {
                lemma_first_leaves(level.queue);
            }
            lemma_move_sound(before@, id@, Stage::Active(key), key, next);
            assert(before@.requests.dom() =~= before.requests@.dom());
            lemma_room_to_run(before@.requests, id@, key);
            assert(before.requests.spec_len() == before.requests@.len());
        }
        let name = self.buckets.key_at(i).to_string();
        let bucket = self.buckets.value_at_mut(i);
        if first {
            let _ = bucket.queue.pop_front();
        }
        bucket.charge();
        self.requests.insert(id.to_string(), Phase::Active(ScopeKey::Credential(name)));
        proof {
            let written = self.buckets@[i as int].1;
            lemma_written(table, i as int, written);
            if first {
                assert(ids(written.queue@) =~= level.queue.drop_first());
            }
            assert(written.level() == next);
            assert(self@.requests =~= before@.requests.insert(id@, Stage::Active(key)));
            assert forall|k: Seq<char>| #[trigger]
                self.buckets.map().dom().contains(k) implies self.buckets.map()[k].policy
                == policy_for(self.config@, k) && self.buckets.map()[k].active == running(
                self@.requests,
                k,
            ) by {
                lemma_running(before@.requests, id@, Stage::Active(key), k);
                assert(before.buckets.map().dom().contains(k));
            }
        }
    }

    /// A request that waits looks again: whether it is its turn, and when to look
    /// again if it is not.
    pub fn poll(&mut self, id: &str, now: Instant) -> (r: Decision)
        requires
            old(self).wf(),
            now.readable(),
        ensures
            final(self).wf(),
            polled(old(self)@, id@, now) == (final(self)@, r),
    {
        proof {
            lemma_polled_sound(self@, id@, now);
        }
        self.look(id, now)
    }

    fn look(&mut self, id: &str, now: Instant) -> (r: Decision)
        requires
            old(self).kept(),
            now.readable(),
        ensures
            final(self).kept(),
            polled(old(self)@, id@, now) == (final(self)@, r),
            final(self).config == old(self).config,
            final(self).parents == old(self).parents,
            final(self).children == old(self).children,
            final(self).stopping == old(self).stopping,
    {
        let ghost before = *self;
        if self.stopping {
            self.detach(id);
            return Decision::Reject(Rejection::Stopping);
        }
        assert(self@.requests.dom() =~= self.requests@.dom());
        let (key, deadline) = match self.requests.get(id) {
            Some(Phase::Queued { key, deadline }) => (key.clone(), *deadline),
            Some(_) => {
                return Decision::Admit;
            },
            None => {
                return Decision::Reject(Rejection::RequestEnded);
            },
        };
        assert(before@.requests[id@] == Stage::Queued(key@, deadline));
        if now.nanos >= deadline.nanos {
            self.detach(id);
            return Decision::Reject(Rejection::QueueTimeout);
        }
        assert(before@.buckets.dom().contains(key@));
        let i: usize = match self.buckets.position(key.credential()) {
            Some(i) => i,
            None => {
                // A request that waits has a bucket.
                assert(false);
                return Decision::Reject(Rejection::RequestEnded);
            },
        };
        self.refill(i, now);
        proof {
            lemma_map_of(self.buckets@);
            assert(self.buckets.map().dom().contains(key@));
            assert(waits(self@, id@, key@));
        }
        let bucket = self.buckets.value_at(i);
        assert(*bucket == self.buckets.map()[key@]);
        if !bucket.policy.enabled {
            self.detach(id);
            return Decision::Admit;
        }
        let first = bucket.is_first(id);
        if first && bucket.available() {
            self.let_run(i, id, true);
            proof {
                assert(self@.buckets =~= polled(before@, id@, now).0.buckets);
            }
            Decision::Admit
        } else {
            // Only the first in line waits for a token. The others look again when
            // the line moves, or when their time is up.
            let wake = if first {
                bucket.wake_at(now, deadline)
            } else {
                deadline
            };
            Decision::WaitUntil(wake)
        }
    }
}

/// Nothing runs on a credential without a bucket.
proof fn lemma_nothing_runs(s: State, key: Seq<char>)
    requires
        sound(s),
        !s.buckets.dom().contains(key),
    ensures
        running(s.requests, key) == 0,
{
    assert forall|id: Seq<char>| !actives(s.requests, key).contains(id) by {
        if s.requests.dom().contains(id) {
            assert(s.requests[id] != Stage::Active(key));
        }
    }
    assert(actives(s.requests, key) =~= Set::empty());
}

/// How far a sweep over the buckets has come: those before an index are up to
/// date and needed, those from it on untouched, and those left out not needed.
spec fn swept_to(
    s: State,
    whole: Map<Seq<char>, Bucket>,
    entries: Seq<(Seq<char>, Bucket)>,
    now: Instant,
    i: int,
) -> bool {
    &&& distinct(entries)
    &&& forall|j: int| #![trigger entries[j]]
        0 <= j < entries.len() ==> {
            let key = entries[j].0;
            let bucket = entries[j].1;
            &&& whole.dom().contains(key)
            &&& bucket.policy == whole[key].policy
            &&& bucket.active == whole[key].active
            &&& if j < i {
                bucket.level() == refilled(rule(s, key), whole[key].level(), now) && needed(s, key, now)
            } else {
                bucket == whole[key]
            }
        }
    &&& forall|key: Seq<char>| #[trigger]
        whole.dom().contains(key) && needed(s, key, now) ==> map_of(entries).dom().contains(key)
}

impl Engine {
    /// Drops the buckets that are idle and full: a new one would be as good. What
    /// owes part of its budget stays.
    fn sweep(&mut self, now: Instant)
        requires
            old(self).kept(),
        ensures
            final(self).kept(),
            final(self)@ == swept(old(self)@, now),
            final(self).config == old(self).config,
            final(self).requests == old(self).requests,
            final(self).parents == old(self).parents,
            final(self).children == old(self).children,
            final(self).stopping == old(self).stopping,
    {
        let ghost before = *self;
        let ghost s = self@;
        let ghost whole = self.buckets.map();
        let mut i: usize = 0;
        let mut count: usize = self.buckets.len();
        proof {
            lemma_swept_sound(s, now);
            lemma_map_of(self.buckets@);
            assert(swept_to(s, whole, self.buckets@, now, 0));
        }
        while i < count
            invariant
                before.kept(),
                s == before@,
                whole == before.buckets.map(),
                i <= count,
                count == self.buckets@.len(),
                swept_to(s, whole, self.buckets@, now, i as int),
                self.config == before.config,
                self.requests == before.requests,
                self.parents == before.parents,
                self.children == before.children,
                self.stopping == before.stopping,
            decreases count - i,
        {
            let ghost table = self.buckets@;
            let ghost key = table[i as int].0;
            proof {
                lemma_map_of(table);
                assert(whole.dom().contains(key));
                assert(s.buckets.dom().contains(key));
                assert(in_budget(s, key));
            }
            let bucket = self.buckets.value_at_mut(i);
            bucket.refill(now);
            let keep = bucket.active != 0 || bucket.queue.len() != 0 || !bucket.is_full();
            let ghost entries = self.buckets@;
            proof {
                lemma_map_update(table, i as int, entries[i as int].1);
                assert(s.buckets[key] == whole[key].level());
                assert(ids(entries[i as int].1.queue@).len() == entries[i as int].1.queue@.len());
                assert(keep == needed(s, key, now));
            }
            if keep {
                proof {
                    assert(swept_to(s, whole, entries, now, i + 1)) by {
                        assert forall|k: Seq<char>| #[trigger]
                            whole.dom().contains(k) && needed(s, k, now) implies map_of(
                            entries,
                        ).dom().contains(k) by {
                            assert(map_of(table).dom().contains(k));
                        }
                    }
                }
                i += 1;
            } else {
                self.buckets.remove_at(i);
                count -= 1;
                proof {
                    assert(swept_to(s, whole, self.buckets@, now, i as int)) by {
                        assert forall|k: Seq<char>| #[trigger]
                            whole.dom().contains(k) && needed(s, k, now) implies map_of(
                            self.buckets@,
                        ).dom().contains(k) by {
                            assert(map_of(table).dom().contains(k));
                        }
                    }
                }
            }
        }
        proof {
            let after = self.buckets.map();
            lemma_map_of(self.buckets@);
            assert forall|k: Seq<char>| #[trigger] after.dom().contains(k) implies {
                &&& whole.dom().contains(k)
                &&& needed(s, k, now)
                &&& after[k].level() == refilled(rule(s, k), whole[k].level(), now)
                &&& after[k].policy == whole[k].policy
                &&& after[k].active == whole[k].active
            } by {
                let j = choose|j: int| stands_at(self.buckets@, k, j);
                assert(self.buckets@[j].0 == k);
            }
            assert(self@.buckets =~= swept(s, now).buckets);
            assert forall|k: Seq<char>| #[trigger] after.dom().contains(k) implies after[k].policy
                == policy_for(self.config@, k) && after[k].active == running(self@.requests, k) by {
                assert(whole.dom().contains(k));
            }
        }
    }
}

impl Engine {
    /// Puts a request at the end of a line.
    fn join(&mut self, i: usize, id: &str, deadline: Instant)
        requires
            old(self).kept(),
            i < old(self).buckets@.len(),
            old(self)@.requests.dom().contains(id@),
            old(self)@.requests[id@] is Idle,
        ensures
            final(self).kept(),
            ({
                let key = old(self).buckets@[i as int].0;
                final(self)@ == queued(
                    old(self)@,
                    id@,
                    key,
                    old(self)@.buckets[key],
                    deadline,
                )
            }),
            final(self).config == old(self).config,
            final(self).parents == old(self).parents,
            final(self).children == old(self).children,
            final(self).stopping == old(self).stopping,
    {
        let ghost before = *self;
        let ghost table = self.buckets@;
        let ghost key = table[i as int].0;
        let ghost level = before@.buckets[key];
        let name = self.buckets.key_at(i).to_string();
        proof {
            lemma_map_of(table);
            assert(before.buckets.map().dom().contains(key));
            assert(before@.buckets.dom().contains(key));
            assert(in_budget(before@, key) && lined_up(before@, key));
            lemma_queued_sound(before@, id@, key, level, deadline);
        }
        let bucket = self.buckets.value_at_mut(i);
        bucket.queue.push_back(id.to_string());
        self.requests.insert(
            id.to_string(),
            Phase::Queued { key: ScopeKey::Credential(name), deadline },
        );
        proof {
            let written = self.buckets@[i as int].1;
            lemma_written(table, i as int, written);
            assert(ids(written.queue@) =~= level.queue.push(id@));
            let stage = Stage::Queued(key, deadline);
            assert(self@.requests =~= before@.requests.insert(id@, stage));
            assert forall|k: Seq<char>| #[trigger]
                self.buckets.map().dom().contains(k) implies self.buckets.map()[k].policy
                == policy_for(self.config@, k) && self.buckets.map()[k].active == running(
                self@.requests,
                k,
            ) by {
                lemma_running(before@.requests, id@, stage, k);
                assert(before.buckets.map().dom().contains(k));
            }
        }
    }

    /// Gives a credential a bucket, where it has none, and brings it up to date.
    fn ready(&mut self, credential: &str, now: Instant) -> (r: usize)
        requires
            old(self).kept(),
        ensures
            final(self).kept(),
            final(self)@ == with_level(
                old(self)@,
                credential@,
                level_at(old(self)@, credential@, now),
            ),
            stands_at(final(self).buckets@, credential@, r as int),
            final(self).config == old(self).config,
            final(self).requests == old(self).requests,
            final(self).parents == old(self).parents,
            final(self).children == old(self).children,
            final(self).stopping == old(self).stopping,
    {
        let ghost before = *self;
        let i: usize = match self.buckets.position(credential) {
            Some(i) => i,
            None => {
                let policy = self.config.policy(credential);
                let end: usize = self.buckets.len();
                let ghost table = self.buckets@;
                let bucket = Bucket::new(policy, now);
                proof {
                    lemma_nothing_runs(before@, credential@);
                    lemma_level_at(before@, credential@, now);
                    lemma_level_sound(before@, credential@, fresh(policy, now));
                }
                self.buckets.push(credential.to_string(), bucket);
                proof {
                    lemma_map_of(self.buckets@);
                    assert(self@.buckets =~= before@.buckets.insert(
                        credential@,
                        fresh(policy, now),
                    ));
                }
                end
            },
        };
        let ghost middle = self@;
        self.refill(i, now);
        proof {
            let level = level_at(before@, credential@, now);
            if !before@.buckets.dom().contains(credential@) {
                assert(refilled(rule(middle, credential@), middle.buckets[credential@], now)
                    == level);
                assert(middle.buckets.insert(credential@, level) =~= before@.buckets.insert(
                    credential@,
                    level,
                ));
            }
        }
        i
    }

    /// Starts an attempt of a request that neither runs nor waits.
    fn place(&mut self, id: &str, credential: &str, now: Instant) -> (r: Decision)
        requires
            old(self).kept(),
            old(self)@.requests.dom().contains(id@),
            old(self)@.requests[id@] is Idle,
            now.readable(),
        ensures
            final(self).kept(),
            placed_on(old(self)@, id@, credential@, now) == (final(self)@, r),
            final(self).config == old(self).config,
            final(self).parents == old(self).parents,
            final(self).children == old(self).children,
            final(self).stopping == old(self).stopping,
    {
        let ghost before = self@;
        let i = self.ready(credential, now);
        let ghost level = level_at(before, credential@, now);
        let bucket = self.buckets.value_at(i);
        proof {
            lemma_map_of(self.buckets@);
            assert(*bucket == self.buckets.map()[credential@]);
            assert(self@.buckets[credential@] == bucket.level());
            assert(bucket.level() == level);
            assert(level.queue.len() == bucket.queue@.len());
        }
        if bucket.queue.len() == 0 && bucket.available() {
            self.let_run(i, id, false);
            proof {
                assert(self@.buckets =~= placed_on(before, id@, credential@, now).0.buckets);
            }
            return Decision::Admit;
        }
        if bucket.queue.len() >= bucket.policy.max_queue {
            return Decision::Reject(Rejection::QueueFull);
        }
        let deadline = now.plus(Duration::from_millis(bucket.policy.queue_timeout_ms));
        self.join(i, id, deadline);
        proof {
            assert(deadline == deadline_from(rule(before, credential@), now));
            assert(self@.buckets =~= queued(before, id@, credential@, level, deadline).buckets);
        }
        self.look(id, now)
    }

    /// Starts an attempt of a request on a credential. The attempt before it is
    /// over, also where it ran on the same credential, and is not refunded.
    pub fn start_attempt(&mut self, id: &str, credential: &str, now: Instant) -> (r: Decision)
        requires
            old(self).wf(),
            now.readable(),
        ensures
            final(self).wf(),
            attempted(old(self)@, id@, credential@, now) == (final(self)@, r),
    {
        let ghost before = self@;
        if self.stopping {
            return Decision::Reject(Rejection::Stopping);
        }
        assert(before.requests.dom() =~= self.requests@.dom());
        match self.requests.get(id) {
            None => {
                return Decision::Reject(Rejection::RequestEnded);
            },
            Some(Phase::Queued { key: _, deadline: _ }) => {
                return Decision::Reject(Rejection::DuplicateWait);
            },
            _ => {},
        }
        proof {
            lemma_attempted_sound(before, id@, credential@, now);
            lemma_detached_sound(before, id@);
        }
        self.detach(id);
        if !self.config.policy(credential).enabled {
            return Decision::Admit;
        }
        if self.buckets.position(credential).is_none() {
            self.sweep(now);
            let count: usize = self.buckets.len();
            proof {
                lemma_map_len(self.buckets@);
                assert(self@.buckets.dom() =~= self.buckets.map().dom());
            }
            if count >= self.config.max_credentials {
                return Decision::Reject(Rejection::Capacity);
            }
        }
        self.place(id, credential, now)
    }
}

/// The lists of nested requests after one request ended, whose own list is gone
/// and which stands in no list any more.
spec fn orphaned(
    before: Map<Seq<char>, Vec<String>>,
    after: Map<Seq<char>, Vec<String>>,
    id: Seq<char>,
    parent: Option<Seq<char>>,
) -> bool {
    &&& after.dom() == before.dom().remove(id)
    &&& forall|p: Seq<char>| #[trigger]
        after.dom().contains(p) ==> ids(after[p]@) == if parent == Some(p) {
            leaving(ids(before[p]@), id)
        } else {
            ids(before[p]@)
        }
}

/// How far the end of a request has come: some of its family are gone, the others
/// are pending or nested in what is pending.
spec fn ended_to(
    parents: Map<Seq<char>, Seq<char>>,
    children: Map<Seq<char>, Vec<String>>,
    id: Seq<char>,
    gone: Set<Seq<char>>,
    pending: Seq<Seq<char>>,
) -> bool {
    &&& children.dom().finite()
    &&& forall|p: Seq<char>, c: Seq<char>|
        #![trigger children.dom().contains(p), parents.dom().contains(c)]
        children.dom().contains(p) ==> !gone.contains(p) && (ids(children[p]@).contains(c)
            <==> parents.dom().contains(c) && parents[c] == p && !gone.contains(c))
    &&& forall|c: Seq<char>| #[trigger]
        parents.dom().contains(c) ==> if gone.contains(parents[c]) {
            gone.contains(c) || pending.contains(c)
        } else {
            children.dom().contains(parents[c])
        }
    &&& forall|x: Seq<char>| #[trigger] gone.contains(x) ==> family(parents, id).contains(x)
    &&& forall|x: Seq<char>| #[trigger] pending.contains(x) ==> family(parents, id).contains(x)
    &&& gone.contains(id) || pending.contains(id)
}

/// One more request ends, and what was nested in it becomes pending.
proof fn lemma_ended_one_more(
    parents: Map<Seq<char>, Seq<char>>,
    before: Map<Seq<char>, Vec<String>>,
    after: Map<Seq<char>, Vec<String>>,
    id: Seq<char>,
    gone: Set<Seq<char>>,
    pending: Seq<Seq<char>>,
    nested: Seq<Seq<char>>,
)
    requires
        pending.len() > 0,
        ended_to(parents, before, id, gone, pending),
        ({
            let x = pending.last();
            &&& orphaned(
                before,
                after,
                x,
                if parents.dom().contains(x) && !gone.contains(x) {
                    Some(parents[x])
                } else {
                    None
                },
            )
            &&& nested == if before.dom().contains(x) {
                ids(before[x]@)
            } else {
                Seq::empty()
            }
        }),
    ensures
        ended_to(parents, after, id, gone.insert(pending.last()), pending.drop_last() + nested),
{
    let x = pending.last();
    let rest = pending.drop_last() + nested;
    let more = gone.insert(x);
    lemma_family(parents, id);
    assert(pending[pending.len() - 1] == x);
    assert(pending.contains(x));
    assert forall|y: Seq<char>| rest.contains(y) <==> pending.drop_last().contains(y)
        || nested.contains(y) by {
        if rest.contains(y) {
            let i = choose|i: int| 0 <= i < rest.len() && rest[i] == y;
            if i < pending.len() - 1 {
                assert(pending.drop_last()[i] == y);
            } else {
                assert(nested[i - (pending.len() - 1)] == y);
            }
        }
        if pending.drop_last().contains(y) {
            let i = choose|i: int|
                0 <= i < pending.drop_last().len() && pending.drop_last()[i] == y;
            assert(rest[i] == y);
        }
        if nested.contains(y) {
            let i = choose|i: int| 0 <= i < nested.len() && nested[i] == y;
            assert(rest[pending.len() - 1 + i] == y);
        }
    }
    assert forall|y: Seq<char>| #[trigger] pending.contains(y) implies y == x
        || pending.drop_last().contains(y) by {
        let i = choose|i: int| 0 <= i < pending.len() && pending[i] == y;
        if i < pending.len() - 1 {
            assert(pending.drop_last()[i] == y);
        }
    }
    assert forall|y: Seq<char>| #[trigger] pending.drop_last().contains(y) implies pending.contains(
        y,
    ) by {
        let i = choose|i: int| 0 <= i < pending.drop_last().len() && pending.drop_last()[i] == y;
        assert(pending[i] == y);
    }
    assert forall|c: Seq<char>| nested.contains(c) implies parents.dom().contains(c) && parents[c]
        == x by {
        let known = parents.dom().contains(c);
        assert(before.dom().contains(x));
    }
    assert forall|p: Seq<char>, c: Seq<char>|
        #![trigger after.dom().contains(p), parents.dom().contains(c)]
        after.dom().contains(p) implies !more.contains(p) && (ids(after[p]@).contains(c)
        <==> parents.dom().contains(c) && parents[c] == p && !more.contains(c)) by {
        assert(before.dom().contains(p) && p != x);
        lemma_leaving(ids(before[p]@), x);
        if c == x && parents.dom().contains(x) && !gone.contains(x) && parents[x] == p {
            assert(ids(after[p]@) == leaving(ids(before[p]@), x));
        }
    }
    assert forall|c: Seq<char>| #[trigger] parents.dom().contains(c) implies if more.contains(
        parents[c],
    ) {
        more.contains(c) || rest.contains(c)
    } else {
        after.dom().contains(parents[c])
    } by {
        if parents[c] == x && !gone.contains(x) {
            assert(before.dom().contains(x));
            assert(ids(before[x]@).contains(c) || gone.contains(c));
        }
    }
    assert forall|y: Seq<char>| #[trigger] rest.contains(y) implies family(parents, id).contains(
        y,
    ) by {
        if nested.contains(y) {
            assert(parents.dom().contains(y) && family(parents, id).contains(parents[y]));
        }
    }
}

impl Engine {
    /// Ends one request, and gives what was nested in it.
    fn end(&mut self, id: &str) -> (nested: Vec<String>)
        requires
            old(self).kept(),
        ensures
            final(self).kept(),
            ({
                let alone = detached(old(self)@, id@);
                &&& final(self)@.requests == alone.requests.remove(id@)
                &&& final(self)@.buckets == alone.buckets
                &&& final(self)@.parents == old(self)@.parents.remove(id@)
            }),
            orphaned(
                old(self).children@,
                final(self).children@,
                id@,
                if old(self)@.parents.dom().contains(id@) {
                    Some(old(self)@.parents[id@])
                } else {
                    None
                },
            ),
            ids(nested@) == if old(self).children@.dom().contains(id@) {
                ids(old(self).children@[id@]@)
            } else {
                Seq::empty()
            },
            final(self).config == old(self).config,
            final(self).stopping == old(self).stopping,
    {
        let ghost before = *self;
        let nested: Vec<String> = match self.children.get(id) {
            Some(list) => copy_list(list),
            None => Vec::new(),
        };
        assert(!before.children@.dom().contains(id@) ==> ids(nested@) =~= Seq::empty());
        self.children.remove(id);
        assert(before@.parents.dom() =~= before.parents@.dom());
        let parent: Option<String> = match self.parents.get(id) {
            Some(parent) => Some(parent.clone()),
            None => None,
        };
        self.parents.remove(id);
        match parent {
            Some(parent) => {
                let kept: Option<Vec<String>> = match self.children.get(parent.as_str()) {
                    Some(list) => Some(list_without(list, id)),
                    None => None,
                };
                match kept {
                    Some(kept) => {
                        self.children.insert(parent, kept);
                    },
                    None => {},
                }
            },
            None => {},
        }
        assert(self.children@.dom() =~= before.children@.dom().remove(id@));
        assert(self@.parents =~= before@.parents.remove(id@));
        self.detach(id);
        let ghost alone = *self;
        self.requests.remove(id);
        proof {
            let s = before@;
            lemma_dropped_none(s);
            lemma_dropped_one_more(s, Set::empty(), id@);
            lemma_dropped_sound(s, Set::empty().insert(id@));
            lemma_detached_sound(s, id@);
            assert(alone@.requests == detached(s, id@).requests);
            assert(alone@.buckets == detached(s, id@).buckets);
            assert(self@.requests =~= alone@.requests.remove(id@));
            assert(self@ == dropped(s, Set::empty().insert(id@)));
            assert forall|k: Seq<char>| #[trigger]
                self.buckets.map().dom().contains(k) implies self.buckets.map()[k].policy
                == policy_for(self.config@, k) && self.buckets.map()[k].active == running(
                self@.requests,
                k,
            ) by {
                lemma_running_less(alone@.requests, id@, k);
            }
        }
        nested
    }

    /// Ends a request, with all that is nested in it: slots are free again and
    /// places in line given up. Of a request that is not live nothing happens.
    pub fn complete(&mut self, id: &str)
        requires
            old(self).wf(),
        ensures
            final(self).wf(),
            final(self)@ == completed(old(self)@, id@),
    {
        let ghost s = self@;
        let ghost parents = self@.parents;
        let ghost mut gone: Set<Seq<char>> = Set::empty();
        let mut pending: Vec<String> = Vec::new();
        pending.push(id.to_string());
        proof {
            lemma_dropped_none(s);
            lemma_family(parents, id@);
            assert(ids(pending@)[0] == id@);
            assert(ended_to(parents, self.children@, id@, gone, ids(pending@)));
        }
        while pending.len() > 0
            invariant
                sound(s),
                parents == s.parents,
                self.kept(),
                self@ == dropped(s, gone),
                ended_to(parents, self.children@, id@, gone, ids(pending@)),
            decreases self.children@.len(), pending@.len(),
        {
            let ghost before = *self;
            let ghost waiting = ids(pending@);
            match pending.pop() {
                Some(next) => {
                    assert(next@ == waiting.last());
                    let mut nested = self.end(next.as_str());
                    let ghost list = ids(nested@);
                    pending.append(&mut nested);
                    proof {
                        assert(ids(pending@) =~= waiting.drop_last() + list);
                        lemma_dropped_one_more(s, gone, next@);
                        lemma_ended_one_more(
                            parents,
                            before.children@,
                            self.children@,
                            id@,
                            gone,
                            waiting,
                            list,
                        );
                        gone = gone.insert(next@);
                    }
                },
                None => {},
            }
        }
        proof {
            lemma_family_least(parents, id@, gone);
            assert(gone =~= family(parents, id@));
            law_complete_keeps_consistency(s, id@);
        }
    }
}

/// The running requests on some credentials.
spec fn running_on(requests: Map<Seq<char>, Stage>, keys: Set<Seq<char>>) -> Set<Seq<char>> {
    running_requests(requests).filter(|id: Seq<char>| keys.contains(requests[id]->Active_0))
}

/// The requests that wait for some credentials.
spec fn waiting_for(requests: Map<Seq<char>, Stage>, keys: Set<Seq<char>>) -> Set<Seq<char>> {
    waiting_requests(requests).filter(|id: Seq<char>| keys.contains(requests[id]->Queued_0))
}

/// Counting in one more credential.
proof fn lemma_count_one_more(s: State, keys: Set<Seq<char>>, key: Seq<char>)
    requires
        sound(s),
        s.buckets.dom().contains(key),
        !keys.contains(key),
    ensures
        running_on(s.requests, keys.insert(key)).len() == running_on(s.requests, keys).len()
            + running(s.requests, key),
        waiting_for(s.requests, keys.insert(key)).len() == waiting_for(s.requests, keys).len()
            + s.buckets[key].queue.len(),
        running_on(s.requests, keys.insert(key)).len() <= s.requests.len(),
        waiting_for(s.requests, keys.insert(key)).len() <= s.requests.len(),
{
    let line = s.buckets[key].queue;
    let here = line.to_set();
    let ran = running_on(s.requests, keys);
    let waited = waiting_for(s.requests, keys);
    assert(lined_up(s, key));
    assert(actives(s.requests, key).subset_of(s.requests.dom()));
    assert(running_on(s.requests, keys.insert(key)) =~= ran + actives(s.requests, key));
    assert(ran.disjoint(actives(s.requests, key)));
    vstd::set_lib::lemma_set_disjoint_lens(ran, actives(s.requests, key));
    assert forall|id: Seq<char>| here.contains(id) <==> waits(s, id, key) by {
        if here.contains(id) {
            let i = choose|i: int| 0 <= i < line.len() && line[i] == id;
            assert(waits(s, s.buckets[key].queue[i], key));
        }
        if waits(s, id, key) {
            assert(s.requests.dom().contains(id));
        }
    }
    assert(waiting_for(s.requests, keys.insert(key)) =~= waited + here);
    assert(waited.disjoint(here));
    assert(here.subset_of(s.requests.dom()));
    vstd::set_lib::lemma_set_disjoint_lens(waited, here);
    line.unique_seq_to_set();
    vstd::set_lib::lemma_len_subset(
        running_on(s.requests, keys.insert(key)),
        s.requests.dom(),
    );
    vstd::set_lib::lemma_len_subset(
        waiting_for(s.requests, keys.insert(key)),
        s.requests.dom(),
    );
}

/// The credentials of the first buckets.
spec fn keys_before(entries: Seq<(Seq<char>, Bucket)>, i: int) -> Set<Seq<char>> {
    Set::new(|key: Seq<char>| exists|j: int| j < i && stands_at(entries, key, j))
}

/// The credentials of the buckets up to an index.
proof fn lemma_keys_before(entries: Seq<(Seq<char>, Bucket)>, i: int)
    requires
        distinct(entries),
        0 <= i < entries.len(),
    ensures
        keys_before(entries, i + 1) == keys_before(entries, i).insert(entries[i].0),
        !keys_before(entries, i).contains(entries[i].0),
{
    assert(stands_at(entries, entries[i].0, i));
    assert forall|key: Seq<char>| keys_before(entries, i + 1).contains(key) == keys_before(
        entries,
        i,
    ).insert(entries[i].0).contains(key) by {
        if keys_before(entries, i + 1).contains(key) {
            let j = choose|j: int| j < i + 1 && stands_at(entries, key, j);
            if j < i {
                assert(j < i && stands_at(entries, key, j));
            }
        }
        if keys_before(entries, i).contains(key) {
            let j = choose|j: int| j < i && stands_at(entries, key, j);
            assert(j < i + 1 && stands_at(entries, key, j));
        }
    }
    assert(keys_before(entries, i + 1) =~= keys_before(entries, i).insert(entries[i].0));
    if keys_before(entries, i).contains(entries[i].0) {
        let j = choose|j: int| j < i && stands_at(entries, entries[i].0, j);
        assert(entries[j].0 != entries[i].0);
    }
}

impl Engine {
    /// The live requests, the running attempts and the waiting requests.
    pub fn counts(&self) -> (r: (usize, usize, usize))
        requires
            self.wf(),
        ensures
            (r.0 as int, r.1 as int, r.2 as int) == tally(self@),
    {
        let ghost s = self@;
        let ghost entries = self.buckets@;
        let count: usize = self.buckets.len();
        let total: usize = self.requests.len();
        let mut active: usize = 0;
        let mut waiting: usize = 0;
        let mut i: usize = 0;
        proof {
            assert(s.requests.dom() =~= self.requests@.dom());
            assert(running_on(s.requests, keys_before(entries, 0)) =~= Set::empty());
            assert(waiting_for(s.requests, keys_before(entries, 0)) =~= Set::empty());
        }
        while i < count
            invariant
                self.kept(),
                s == self@,
                entries == self.buckets@,
                distinct(entries),
                i <= count,
                count == entries.len(),
                total == s.requests.len(),
                active == running_on(s.requests, keys_before(entries, i as int)).len(),
                waiting == waiting_for(s.requests, keys_before(entries, i as int)).len(),
            decreases count - i,
        {
            let bucket = self.buckets.value_at(i);
            proof {
                let key = entries[i as int].0;
                lemma_map_of(entries);
                lemma_keys_before(entries, i as int);
                assert(self.buckets.map().dom().contains(key));
                assert(s.buckets[key] == bucket.level());
                lemma_count_one_more(s, keys_before(entries, i as int), key);
            }
            active = active + bucket.active;
            waiting = waiting + bucket.queue.len();
            i += 1;
        }
        proof {
            let keys = keys_before(entries, i as int);
            lemma_map_of(entries);
            assert forall|key: Seq<char>| s.buckets.dom().contains(key) implies keys.contains(
                key,
            ) by {
                assert(self.buckets.map().dom().contains(key));
                let j = choose|j: int| stands_at(entries, key, j);
                assert(j < i && stands_at(entries, key, j));
            }
            assert(running_on(s.requests, keys) =~= running_requests(s.requests));
            assert(waiting_for(s.requests, keys) =~= waiting_requests(s.requests));
        }
        (total, active, waiting)
    }

    /// Refuses new work from now on.
    pub fn stop(&mut self)
        requires
            old(self).wf(),
        ensures
            final(self).wf(),
            final(self)@ == stopped(old(self)@),
    {
        proof {
            law_stop_keeps_consistency(self@);
        }
        self.stopping = true;
    }

    /// How a failure is retried, where the configuration says so.
    pub fn map_error(&self, status: u16, failure: &Json) -> (r: Option<RetryableError>)
        ensures
            outcome(r) == if self@.config.enabled && !self@.stopping {
                mapped(self@.config.error_mapping, status, failure@)
            } else {
                None
            },
    {
        if !self.config.enabled || self.stopping {
            return None;
        }
        self.config.error_mapping.map(status, failure)
    }

    /// Takes over a configuration. Requests, deadlines, running attempts and lines
    /// stay, and so does what a budget owes; a configuration that is refused
    /// changes nothing.
    pub fn reconfigure(&mut self, config: Config, now: Instant) -> (r: Result<(), String>)
        requires
            old(self).wf(),
        ensures
            final(self).wf(),
            reconfiguration(old(self)@, config@, now).0 == final(self)@,
            reports(r, reconfiguration(old(self)@, config@, now).1),
    {
        config.validate()?;
        if self.stopping {
            return Err("plugin is stopping".to_string());
        }
        let ghost before = *self;
        let ghost s = self@;
        let ghost table = self.buckets@;
        let count: usize = self.buckets.len();
        let mut i: usize = 0;
        while i < count
            invariant
                before.wf(),
                s == before@,
                table == before.buckets@,
                distinct(table),
                count == table.len(),
                i <= count,
                recut_to(s, config@, table, self.buckets@, now, i as int),
                self.config == before.config,
                self.requests == before.requests,
                self.parents == before.parents,
                self.children == before.children,
                self.stopping == before.stopping,
            decreases count - i,
        {
            let ghost key = table[i as int].0;
            proof {
                lemma_map_of(table);
                assert(self.buckets@[i as int] == table[i as int]);
                assert(before.buckets.map().dom().contains(key));
                assert(s.buckets.dom().contains(key));
                assert(in_budget(s, key));
            }
            let policy = config.policy(self.buckets.key_at(i));
            let bucket = self.buckets.value_at_mut(i);
            bucket.refill(now);
            let full: u128 = policy.burst as u128 * TOKEN;
            if bucket.tokens >= full {
                bucket.tokens = full;
            }
            bucket.policy = policy;
            i += 1;
        }
        self.config = config;
        proof {
            law_reconfigure_keeps_consistency(s, config@, now);
            let after = self.buckets.map();
            let whole = before.buckets.map();
            let entries = self.buckets@;
            assert(distinct(entries)) by {
                assert forall|a: int, b: int|
                    0 <= a < entries.len() && 0 <= b < entries.len() && a != b implies (
                #[trigger] entries[a]).0 != (#[trigger] entries[b]).0 by {
                    assert(table[a].0 != table[b].0);
                }
            }
            lemma_map_of(entries);
            lemma_map_of(table);
            assert forall|k: Seq<char>| after.dom().contains(k) == #[trigger] whole.dom().contains(
                k,
            ) by {
                if after.dom().contains(k) {
                    let j = choose|j: int| stands_at(entries, k, j);
                    assert(stands_at(table, k, j));
                }
                if whole.dom().contains(k) {
                    let j = choose|j: int| stands_at(table, k, j);
                    assert(entries[j].0 == table[j].0);
                    assert(stands_at(entries, k, j));
                }
            }
            assert forall|k: Seq<char>| #[trigger] after.dom().contains(k) implies {
                &&& after[k].level() == recut(rule(s, k), policy_for(config@, k), s.buckets[k], now)
                &&& after[k].policy == policy_for(config@, k)
                &&& after[k].active == whole[k].active
            } by {
                let j = choose|j: int| stands_at(entries, k, j);
                assert(entries[j].0 == table[j].0);
                assert(whole[k] == table[j].1);
                assert(whole.dom().contains(k));
            }
            assert(self@.buckets =~= reconfigured(s, config@, now).buckets);
        }
        Ok(())
    }
}

/// How far a reconfiguration has come: the buckets before an index are handed
/// over, the others untouched.
spec fn recut_to(
    s: State,
    config: ConfigView,
    table: Seq<(Seq<char>, Bucket)>,
    entries: Seq<(Seq<char>, Bucket)>,
    now: Instant,
    i: int,
) -> bool {
    &&& entries.len() == table.len()
    &&& forall|j: int| #![trigger entries[j]]
        0 <= j < entries.len() ==> {
            let key = table[j].0;
            &&& entries[j].0 == key
            &&& if j < i {
                &&& entries[j].1.level() == recut(
                    rule(s, key),
                    policy_for(config, key),
                    table[j].1.level(),
                    now,
                )
                &&& entries[j].1.policy == policy_for(config, key)
                &&& entries[j].1.active == table[j].1.active
            } else {
                entries[j] == table[j]
            }
        }
}

/// Every engine is in a consistent state: requests and buckets agree, lines hold
/// nobody twice, budgets are within bounds, and nested requests have live outer ones.
pub proof fn law_engine_is_consistent(engine: Engine)
    requires
        engine.wf(),
    ensures
        consistent(engine@),
{
}

/// A list without one request.
fn list_without(list: &Vec<String>, id: &str) -> (r: Vec<String>)
    ensures
        ids(r@) == leaving(ids(list@), id@),
{
    let mut kept: Vec<String> = Vec::new();
    let mut i: usize = 0;
    let ghost whole = ids(list@);
    let ghost keep = other_than(id@);
    while i < list.len()
        invariant
            i <= list@.len(),
            whole == ids(list@),
            keep == other_than(id@),
            ids(kept@) == whole.take(i as int).filter(keep),
        decreases list@.len() - i,
    {
        let ghost line = ids(kept@);
        assert(whole.take(i + 1).drop_last() == whole.take(i as int));
        assert(whole.take(i + 1).filter(keep) == if list@[i as int]@ != id@ {
            line.push(list@[i as int]@)
        } else {
            line
        }) by {
            reveal(Seq::filter);
        }
        if !same(list[i].as_str(), id) {
            kept.push(list[i].clone());
            assert(ids(kept@) == line.push(list@[i as int]@));
        }
        i += 1;
    }
    assert(whole.take(i as int) == whole);
    kept
}

proof fn lemma_pushed(line: Seq<Seq<char>>, id: Seq<char>, x: Seq<char>)
    ensures
        line.push(id).contains(x) <==> line.contains(x) || x == id,
{
    let whole = line.push(id);
    if whole.contains(x) {
        let i = choose|i: int| 0 <= i < whole.len() && whole[i] == x;
        if i < line.len() {
            assert(line[i] == x);
        }
    }
    if line.contains(x) {
        let i = choose|i: int| 0 <= i < line.len() && line[i] == x;
        assert(whole[i] == x);
    }
    assert(whole[line.len() as int] == id);
}

/// A copy of a list of requests.
fn copy_list(list: &Vec<String>) -> (r: Vec<String>)
    ensures
        ids(r@) == ids(list@),
{
    let mut out: Vec<String> = Vec::new();
    let mut i: usize = 0;
    while i < list.len()
        invariant
            i <= list@.len(),
            out@.len() == i,
            forall|k: int| 0 <= k < i ==> (#[trigger] out@[k])@ == list@[k]@,
        decreases list@.len() - i,
    {
        out.push(list[i].clone());
        i += 1;
    }
    assert(ids(out@) =~= ids(list@));
    out
}

} // verus!
