//! An interleaving simulation of the run: each actor is a little state
//! machine (hungry, holding its first resource, eating, done), the
//! resource ring records which actor holds each slot, and a log records
//! the begin/end events of each actor's meal.  A scheduler choice is a
//! single actor index; `step` performs that actor's next transition if it
//! is enabled, so every interleaving of the real concurrent run can be
//! replayed here.

use vstd::prelude::*;

use crate::roster::Philosopher;
use crate::roster::roster_in_bounds;
use crate::roster::roster_ordered;

verus! {

/// Where an actor stands in its `acquire, acquire, eat, release` protocol.
#[derive(Clone, Copy, Debug, PartialEq, Eq, Structural)]
pub enum Phase {
    /// Holds nothing yet.
    Hungry,
    /// Holds its `left` resource, waiting for its `right` one.
    HasFirst,
    /// Holds both resources.
    Eating,
    /// Has released both resources and finished.
    Done,
}

/// The kind of a log line.
#[derive(Clone, Copy, Debug, PartialEq, Eq, Structural)]
pub enum EventKind {
    /// The actor began eating ("... is eating").
    Begin,
    /// The actor finished eating ("... is done eating").
    End,
}

/// One log line: which actor, and whether it began or finished.
#[derive(Clone, Copy, Debug, PartialEq, Eq, Structural)]
pub struct Event {
    pub actor: usize,
    pub kind: EventKind,
}

/// The rejection of an ill-formed configuration.
#[derive(Clone, Copy, Debug, PartialEq, Eq, Structural)]
pub enum ConfigError {
    /// Some actor references a resource index outside the ring.
    ResourceIndexOutOfBounds,
}

/// The whole state of a run: the immutable roster, the ring of resource
/// slots with their current holders, each actor's phase, and the event
/// log so far.
pub struct Simulation {
    pub philosophers: Vec<Philosopher>,
    pub n_resources: usize,
    pub phases: Vec<Phase>,
    pub holder: Vec<Option<usize>>,
    pub log: Vec<Event>,
}

impl Simulation {
    /// The number of actors.
    pub open spec fn n_actors(self) -> nat {
        self.philosophers@.len()
    }

    /// The number of resource slots.
    pub open spec fn n_resources(self) -> nat {
        self.n_resources as nat
    }

    /// The current phase of actor `k`.
    pub open spec fn phase_of(self, k: int) -> Phase {
        self.phases@[k]
    }

    /// The current holder of resource slot `r`.
    pub open spec fn holder_of(self, r: int) -> Option<usize> {
        self.holder@[r]
    }

    /// Actor `k` currently holds resource `r`: it holds its `left` slot
    /// from the moment it acquires it until it finishes, and its `right`
    /// slot only while eating.
    pub open spec fn holds(self, k: int, r: int) -> bool {
        match self.phases@[k] {
            Phase::Hungry => false,
            Phase::HasFirst => r == self.philosophers@[k].left,
            Phase::Eating => r == self.philosophers@[k].left || r == self.philosophers@[k].right,
            Phase::Done => false,
        }
    }

    /// Actor `k` can take its next transition right now: acquiring needs
    /// the wanted slot to be free, finishing a meal is always possible,
    /// and a finished actor has nothing left to do.
    pub open spec fn enabled(self, k: int) -> bool {
        match self.phases@[k] {
            Phase::Hungry => self.holder@[self.philosophers@[k].left as int] is None,
            Phase::HasFirst => self.holder@[self.philosophers@[k].right as int] is None,
            Phase::Eating => true,
            Phase::Done => false,
        }
    }

    /// Every actor has finished.
    pub open spec fn all_done(self) -> bool {
        forall|k: int| 0 <= k < self.n_actors() ==> self.phase_of(k) == Phase::Done
    }

    /// No actor can take a transition.
    pub open spec fn none_enabled(self) -> bool {
        forall|k: int| 0 <= k < self.n_actors() ==> !(#[trigger] self.enabled(k))
    }

    /// The run is stuck: no actor can move although not every actor is
    /// done.
    pub open spec fn deadlocked(self) -> bool {
        self.none_enabled() && !self.all_done()
    }

    /// The record of who holds each slot agrees with the actors' phases:
    /// slot `r` records holder `k` exactly when actor `k` holds `r`.
    pub open spec fn holders_consistent(self) -> bool {
        forall|k: int, r: int|
            0 <= k < self.n_actors() && 0 <= r < self.n_resources() ==> (#[trigger] self.holds(
                k,
                r,
            ) <==> self.holder@[r] == Some(k as usize))
    }

    /// The well-formedness invariant of a simulation state, established
    /// by construction and preserved by every step.
    pub open spec fn wf(self) -> bool {
        &&& self.phases@.len() == self.n_actors()
        &&& self.holder@.len() == self.n_resources()
        &&& self.n_actors() <= usize::MAX
        &&& roster_in_bounds(self.philosophers@, self.n_resources)
        &&& self.holders_consistent()
        &&& forall|r: int|
            0 <= r < self.n_resources() ==> ((#[trigger] self.holder@[r]) matches Some(h) ==> h
                < self.n_actors())
        &&& forall|k: int|
            0 <= k < self.n_actors() && #[trigger] self.phase_of(k) == Phase::Eating
                ==> self.philosophers@[k].left != self.philosophers@[k].right
        &&& self.log_wf()
    }

    /// What the log says agrees with the phases: an actor has logged its
    /// begin event exactly when it has started (or finished) eating, and
    /// its end event exactly when it is done; every end event is preceded
    /// by the same actor's begin event; and the totals agree with the
    /// phase counts.
    pub open spec fn log_wf(self) -> bool {
        &&& forall|k: int|
            0 <= k < self.n_actors() ==> count_actor_events(self.log@, k, EventKind::Begin) == (
            if self.phase_of(k) == Phase::Eating || self.phase_of(k) == Phase::Done {
                1nat
            } else {
                0nat
            })
        &&& forall|k: int|
            0 <= k < self.n_actors() ==> count_actor_events(self.log@, k, EventKind::End) == (
            if self.phase_of(k) == Phase::Done {
                1nat
            } else {
                0nat
            })
        &&& forall|i: int|
            0 <= i < self.log@.len() ==> (#[trigger] self.log@[i]).actor < self.n_actors()
        &&& ends_follow_begins(self.log@)
        &&& count_events(self.log@, EventKind::Begin) == count_begun(self.phases@)
        &&& count_events(self.log@, EventKind::End) == count_done(self.phases@)
        &&& self.log@.len() == count_begun(self.phases@) + count_done(self.phases@)
    }

    /// Builds the initial state of a run: every actor hungry, every
    /// resource slot free, the log empty.  Rejects a roster in which some
    /// actor references a resource index outside the ring, and succeeds on
    /// every other roster.
    pub fn new(philosophers: Vec<Philosopher>, n_resources: usize) -> (result: Result<
        Simulation,
        ConfigError,
    >)
        ensures
            match result {
                Ok(sim) => {
                    &&& roster_in_bounds(philosophers@, n_resources)
                    &&& sim.wf()
                    &&& sim.philosophers@ == philosophers@
                    &&& sim.n_resources == n_resources
                    &&& forall|k: int|
                        0 <= k < sim.n_actors() ==> sim.phase_of(k) == Phase::Hungry
                    &&& forall|r: int| 0 <= r < sim.n_resources() ==> sim.holder_of(r) is None
                    &&& sim.log@.len() == 0
                },
                Err(e) => {
                    &&& e == ConfigError::ResourceIndexOutOfBounds
                    &&& !roster_in_bounds(philosophers@, n_resources)
                },
            },
    {
        let n = philosophers.len();
        let mut i: usize = 0;
        while i < n
            invariant
                i <= n,
                n == philosophers@.len(),
                forall|k: int|
                    0 <= k < i ==> (#[trigger] philosophers@[k]).left < n_resources
                        && philosophers@[k].right < n_resources,
            decreases n - i,
        {
            if philosophers[i].left >= n_resources || philosophers[i].right >= n_resources {
                assert(!roster_in_bounds(philosophers@, n_resources));
                return Err(ConfigError::ResourceIndexOutOfBounds);
            }
            i = i + 1;
        }
        let mut phases: Vec<Phase> = Vec::new();
        let mut j: usize = 0;
        while j < n
            invariant
                j <= n,
                phases@.len() == j,
                forall|k: int| 0 <= k < j ==> phases@[k] == Phase::Hungry,
                count_begun(phases@) == 0,
                count_done(phases@) == 0,
            decreases n - j,
        {
            let ghost pre = phases@;
            phases.push(Phase::Hungry);
            proof {
                lemma_phase_counts_push(pre, Phase::Hungry);
            }
            j = j + 1;
        }
        let mut holder: Vec<Option<usize>> = Vec::new();
        let mut r: usize = 0;
        while r < n_resources
            invariant
                r <= n_resources,
                holder@.len() == r,
                forall|q: int| 0 <= q < r ==> holder@[q] is None,
            decreases n_resources - r,
        {
            holder.push(None);
            r = r + 1;
        }
        let sim = Simulation { philosophers, n_resources, phases, holder, log: Vec::new() };
        proof {
            assert forall|k: int, q: int|
                0 <= k < sim.n_actors() && 0 <= q < sim.n_resources() implies (#[trigger] sim.holds(
                k,
                q,
            ) <==> sim.holder@[q] == Some(k as usize)) by {
                assert(sim.holder@[q] is None);
            }
        }
        Ok(sim)
    }

    /// Performs actor `k`'s next transition if it is enabled: acquire its
    /// `left` resource, then its `right` one (logging the begin event),
    /// then finish the meal (logging the end event and releasing both).
    /// A blocked or finished actor leaves the state unchanged, so every
    /// interleaving of the concurrent run can be replayed by a sequence
    /// of calls.
    pub fn step(&mut self, k: usize) -> (progressed: bool)
        requires
            old(self).wf(),
            k < old(self).n_actors(),
        ensures
            final(self).wf(),
            final(self).philosophers@ == old(self).philosophers@,
            final(self).n_resources == old(self).n_resources,
            progressed == old(self).enabled(k as int),
            !progressed ==> final(self).phases@ == old(self).phases@ && final(self).holder@ == old(
                self,
            ).holder@ && final(self).log@ == old(self).log@,
            progressed ==> match old(self).phase_of(k as int) {
                Phase::Hungry => {
                    &&& final(self).phases@ == old(self).phases@.update(k as int, Phase::HasFirst)
                    &&& final(self).holder@ == old(self).holder@.update(
                        old(self).philosophers@[k as int].left as int,
                        Some(k),
                    )
                    &&& final(self).log@ == old(self).log@
                },
                Phase::HasFirst => {
                    &&& final(self).phases@ == old(self).phases@.update(k as int, Phase::Eating)
                    &&& final(self).holder@ == old(self).holder@.update(
                        old(self).philosophers@[k as int].right as int,
                        Some(k),
                    )
                    &&& final(self).log@ == old(self).log@.push(
                        Event { actor: k, kind: EventKind::Begin },
                    )
                },
                Phase::Eating => {
                    &&& final(self).phases@ == old(self).phases@.update(k as int, Phase::Done)
                    &&& final(self).holder@ == old(self).holder@.update(
                        old(self).philosophers@[k as int].left as int,
                        None,
                    ).update(old(self).philosophers@[k as int].right as int, None)
                    &&& final(self).log@ == old(self).log@.push(
                        Event { actor: k, kind: EventKind::End },
                    )
                },
                Phase::Done => false,
            },
            progressed ==> total_rank(final(self).phases@) == total_rank(old(self).phases@) + 1,
    {
        let ghost pre = *self;
        let n = self.philosophers.len();
        let phase = self.phases[k];
        match phase {
            Phase::Hungry => {
                let l = self.philosophers[k].left;
                if self.holder[l].is_none() {
                    self.holder[l] = Some(k);
                    self.phases[k] = Phase::HasFirst;
                    proof {
                        self.lemma_step_acquire_first(pre, k);
                    }
                    true
                } else {
                    false
                }
            },
            Phase::HasFirst => {
                let r = self.philosophers[k].right;
                if self.holder[r].is_none() {
                    self.holder[r] = Some(k);
                    self.phases[k] = Phase::Eating;
                    self.log.push(Event { actor: k, kind: EventKind::Begin });
                    proof {
                        self.lemma_step_acquire_second(pre, k);
                    }
                    true
                } else {
                    false
                }
            },
            Phase::Eating => {
                let l = self.philosophers[k].left;
                let r = self.philosophers[k].right;
                self.holder[l] = None;
                self.holder[r] = None;
                self.phases[k] = Phase::Done;
                self.log.push(Event { actor: k, kind: EventKind::End });
                proof {
                    self.lemma_step_finish(pre, k);
                }
                true
            },
            Phase::Done => false,
        }
    }

    /// The acquisition of the first resource preserves the invariant.
    #[verifier::rlimit(25)]
    proof fn lemma_step_acquire_first(self, pre: Simulation, k: usize)
        requires
            pre.wf(),
            k < pre.n_actors(),
            pre.phase_of(k as int) == Phase::Hungry,
            pre.enabled(k as int),
            self.philosophers@ == pre.philosophers@,
            self.n_resources == pre.n_resources,
            self.phases@ == pre.phases@.update(k as int, Phase::HasFirst),
            self.holder@ == pre.holder@.update(pre.philosophers@[k as int].left as int, Some(k)),
            self.log@ == pre.log@,
        ensures
            self.wf(),
            total_rank(self.phases@) == total_rank(pre.phases@) + 1,
    {
        let kk = k as int;
        let n = pre.n_actors() as int;
        let ll = pre.philosophers@[kk].left as int;
        lemma_count_begun_update(pre.phases@, kk, Phase::HasFirst);
        lemma_count_done_update(pre.phases@, kk, Phase::HasFirst);
        lemma_total_rank_update(pre.phases@, kk, Phase::HasFirst);
        assert forall|a: int, q: int|
            0 <= a < self.n_actors() && 0 <= q < self.n_resources() implies (#[trigger] self.holds(
            a,
            q,
        ) <==> self.holder@[q] == Some(a as usize)) by {
            if a == kk {
                assert(!pre.holds(a, q));
            } else {
                assert(self.holds(a, q) == pre.holds(a, q));
                assert(pre.holds(a, q) <==> pre.holder@[q] == Some(a as usize));
                assert(a as usize != k);
            }
        }
        assert forall|q: int|
            0 <= q < self.n_resources() implies ((#[trigger] self.holder@[q]) matches Some(h) ==> h
            < self.n_actors()) by {
            if q != ll {
                assert(pre.holder@[q] matches Some(h) ==> h < pre.n_actors());
            }
        }
        assert forall|a: int|
            0 <= a < self.n_actors() && #[trigger] self.phase_of(a) == Phase::Eating implies
            self.philosophers@[a].left != self.philosophers@[a].right by {
            assert(pre.phase_of(a) == Phase::Eating);
        }
        assert forall|a: int|
            0 <= a < self.n_actors() implies count_actor_events(self.log@, a, EventKind::Begin) == (
            if self.phase_of(a) == Phase::Eating || self.phase_of(a) == Phase::Done {
                1nat
            } else {
                0nat
            }) by {
            assert(count_actor_events(pre.log@, a, EventKind::Begin) == (
            if pre.phase_of(a) == Phase::Eating || pre.phase_of(a) == Phase::Done {
                1nat
            } else {
                0nat
            }));
        }
        assert forall|a: int|
            0 <= a < self.n_actors() implies count_actor_events(self.log@, a, EventKind::End) == (
            if self.phase_of(a) == Phase::Done {
                1nat
            } else {
                0nat
            }) by {
            assert(count_actor_events(pre.log@, a, EventKind::End) == (
            if pre.phase_of(a) == Phase::Done {
                1nat
            } else {
                0nat
            }));
        }
    }

    /// The acquisition of the second resource, with its begin event,
    /// preserves the invariant.
    #[verifier::rlimit(25)]
    proof fn lemma_step_acquire_second(self, pre: Simulation, k: usize)
        requires
            pre.wf(),
            k < pre.n_actors(),
            pre.phase_of(k as int) == Phase::HasFirst,
            pre.enabled(k as int),
            self.philosophers@ == pre.philosophers@,
            self.n_resources == pre.n_resources,
            self.phases@ == pre.phases@.update(k as int, Phase::Eating),
            self.holder@ == pre.holder@.update(pre.philosophers@[k as int].right as int, Some(k)),
            self.log@ == pre.log@.push(Event { actor: k, kind: EventKind::Begin }),
        ensures
            self.wf(),
            total_rank(self.phases@) == total_rank(pre.phases@) + 1,
    {
        let kk = k as int;
        let e = Event { actor: k, kind: EventKind::Begin };
        let ll = pre.philosophers@[kk].left as int;
        let rr = pre.philosophers@[kk].right as int;
        lemma_count_begun_update(pre.phases@, kk, Phase::Eating);
        lemma_count_done_update(pre.phases@, kk, Phase::Eating);
        lemma_total_rank_update(pre.phases@, kk, Phase::Eating);
        lemma_count_events_push(pre.log@, e, EventKind::Begin);
        lemma_count_events_push(pre.log@, e, EventKind::End);
        // The actor still holds its first resource, so the now-free second
        // slot is a different one: the two indices are distinct.
        assert(pre.holds(kk, ll));
        assert(pre.holder@[ll] == Some(k));
        assert(ll != rr);
        assert forall|a: int, q: int|
            0 <= a < self.n_actors() && 0 <= q < self.n_resources() implies (#[trigger] self.holds(
            a,
            q,
        ) <==> self.holder@[q] == Some(a as usize)) by {
            if a == kk {
                assert(pre.holds(a, q) <==> pre.holder@[q] == Some(a as usize));
                assert(pre.holds(a, q) == (q == ll));
            } else {
                assert(self.holds(a, q) == pre.holds(a, q));
                assert(pre.holds(a, q) <==> pre.holder@[q] == Some(a as usize));
                assert(a as usize != k);
            }
        }
        assert forall|q: int|
            0 <= q < self.n_resources() implies ((#[trigger] self.holder@[q]) matches Some(h) ==> h
            < self.n_actors()) by {
            if q != rr {
                assert(pre.holder@[q] matches Some(h) ==> h < pre.n_actors());
            }
        }
        assert forall|a: int|
            0 <= a < self.n_actors() && #[trigger] self.phase_of(a) == Phase::Eating implies
            self.philosophers@[a].left != self.philosophers@[a].right by {
            if a != kk {
                assert(pre.phase_of(a) == Phase::Eating);
            }
        }
        assert forall|a: int|
            0 <= a < self.n_actors() implies count_actor_events(self.log@, a, EventKind::Begin) == (
            if self.phase_of(a) == Phase::Eating || self.phase_of(a) == Phase::Done {
                1nat
            } else {
                0nat
            }) by {
            lemma_count_actor_events_push(pre.log@, e, a, EventKind::Begin);
            assert(count_actor_events(pre.log@, a, EventKind::Begin) == (
            if pre.phase_of(a) == Phase::Eating || pre.phase_of(a) == Phase::Done {
                1nat
            } else {
                0nat
            }));
        }
        assert forall|a: int|
            0 <= a < self.n_actors() implies count_actor_events(self.log@, a, EventKind::End) == (
            if self.phase_of(a) == Phase::Done {
                1nat
            } else {
                0nat
            }) by {
            lemma_count_actor_events_push(pre.log@, e, a, EventKind::End);
            assert(count_actor_events(pre.log@, a, EventKind::End) == (
            if pre.phase_of(a) == Phase::Done {
                1nat
            } else {
                0nat
            }));
        }
        lemma_ends_follow_begins_push(pre.log@, e);
    }

    /// The end of a meal, with its end event and the release of both
    /// resources, preserves the invariant.
    #[verifier::rlimit(25)]
    proof fn lemma_step_finish(self, pre: Simulation, k: usize)
        requires
            pre.wf(),
            k < pre.n_actors(),
            pre.phase_of(k as int) == Phase::Eating,
            self.philosophers@ == pre.philosophers@,
            self.n_resources == pre.n_resources,
            self.phases@ == pre.phases@.update(k as int, Phase::Done),
            self.holder@ == pre.holder@.update(pre.philosophers@[k as int].left as int, None).update(
                pre.philosophers@[k as int].right as int,
                None,
            ),
            self.log@ == pre.log@.push(Event { actor: k, kind: EventKind::End }),
        ensures
            self.wf(),
            total_rank(self.phases@) == total_rank(pre.phases@) + 1,
    {
        let kk = k as int;
        let e = Event { actor: k, kind: EventKind::End };
        let ll = pre.philosophers@[kk].left as int;
        let rr = pre.philosophers@[kk].right as int;
        lemma_count_begun_update(pre.phases@, kk, Phase::Done);
        lemma_count_done_update(pre.phases@, kk, Phase::Done);
        lemma_total_rank_update(pre.phases@, kk, Phase::Done);
        lemma_count_events_push(pre.log@, e, EventKind::Begin);
        lemma_count_events_push(pre.log@, e, EventKind::End);
        assert(pre.holds(kk, ll) && pre.holds(kk, rr));
        assert(pre.holder@[ll] == Some(k) && pre.holder@[rr] == Some(k));
        assert forall|a: int, q: int|
            0 <= a < self.n_actors() && 0 <= q < self.n_resources() implies (#[trigger] self.holds(
            a,
            q,
        ) <==> self.holder@[q] == Some(a as usize)) by {
            if a == kk {
                assert(!self.holds(a, q));
                if q != ll && q != rr {
                    assert(!pre.holds(a, q));
                    assert(pre.holds(a, q) <==> pre.holder@[q] == Some(a as usize));
                }
            } else {
                assert(self.holds(a, q) == pre.holds(a, q));
                assert(pre.holds(a, q) <==> pre.holder@[q] == Some(a as usize));
                assert(a as usize != k);
            }
        }
        assert forall|q: int|
            0 <= q < self.n_resources() implies ((#[trigger] self.holder@[q]) matches Some(h) ==> h
            < self.n_actors()) by {
            if q != ll && q != rr {
                assert(pre.holder@[q] matches Some(h) ==> h < pre.n_actors());
            }
        }
        assert forall|a: int|
            0 <= a < self.n_actors() && #[trigger] self.phase_of(a) == Phase::Eating implies
            self.philosophers@[a].left != self.philosophers@[a].right by {
            assert(pre.phase_of(a) == Phase::Eating);
        }
        assert forall|a: int|
            0 <= a < self.n_actors() implies count_actor_events(self.log@, a, EventKind::Begin) == (
            if self.phase_of(a) == Phase::Eating || self.phase_of(a) == Phase::Done {
                1nat
            } else {
                0nat
            }) by {
            lemma_count_actor_events_push(pre.log@, e, a, EventKind::Begin);
            assert(count_actor_events(pre.log@, a, EventKind::Begin) == (
            if pre.phase_of(a) == Phase::Eating || pre.phase_of(a) == Phase::Done {
                1nat
            } else {
                0nat
            }));
        }
        assert forall|a: int|
            0 <= a < self.n_actors() implies count_actor_events(self.log@, a, EventKind::End) == (
            if self.phase_of(a) == Phase::Done {
                1nat
            } else {
                0nat
            }) by {
            lemma_count_actor_events_push(pre.log@, e, a, EventKind::End);
            assert(count_actor_events(pre.log@, a, EventKind::End) == (
            if pre.phase_of(a) == Phase::Done {
                1nat
            } else {
                0nat
            }));
        }
        // The actor ending its meal has logged its begin event and not yet
        // its end event, so the appended end event keeps the log balanced.
        assert(count_actor_events(pre.log@, kk, EventKind::Begin) == 1);
        assert(count_actor_events(pre.log@, kk, EventKind::End) == 0);
        lemma_ends_follow_begins_push(pre.log@, e);
    }

    /// Whether actor `k` can take its next transition right now.
    pub fn enabled_at(&self, k: usize) -> (r: bool)
        requires
            self.wf(),
            k < self.n_actors(),
        ensures
            r == self.enabled(k as int),
    {
        match self.phases[k] {
            Phase::Hungry => self.holder[self.philosophers[k].left].is_none(),
            Phase::HasFirst => self.holder[self.philosophers[k].right].is_none(),
            Phase::Eating => true,
            Phase::Done => false,
        }
    }

    /// Looks for an actor that can move, scanning the roster in order.
    pub fn find_enabled(&self) -> (r: Option<usize>)
        requires
            self.wf(),
        ensures
            match r {
                Some(k) => k < self.n_actors() && self.enabled(k as int),
                None => self.none_enabled(),
            },
    {
        let n = self.philosophers.len();
        let mut j: usize = 0;
        while j < n
            invariant
                self.wf(),
                j <= n,
                n == self.n_actors(),
                forall|a: int| 0 <= a < j ==> !(#[trigger] self.enabled(a)),
            decreases n - j,
        {
            if self.enabled_at(j) {
                return Some(j);
            }
            j = j + 1;
        }
        None
    }

    /// Whether every actor has finished.
    pub fn is_complete(&self) -> (r: bool)
        requires
            self.wf(),
        ensures
            r == self.all_done(),
    {
        let n = self.philosophers.len();
        let mut j: usize = 0;
        while j < n
            invariant
                self.wf(),
                j <= n,
                n == self.n_actors(),
                forall|a: int| 0 <= a < j ==> self.phase_of(a) == Phase::Done,
            decreases n - j,
        {
            match self.phases[j] {
                Phase::Done => {},
                _ => {
                    proof {
                        assert(self.phase_of(j as int) != Phase::Done);
                    }
                    return false;
                },
            }
            j = j + 1;
        }
        true
    }

    /// Whether the run is stuck: no actor can move although not every
    /// actor is done.
    pub fn is_deadlocked(&self) -> (r: bool)
        requires
            self.wf(),
        ensures
            r == self.deadlocked(),
    {
        let blocked = match self.find_enabled() {
            Some(k) => {
                proof {
                    assert(self.enabled(k as int));
                }
                false
            },
            None => true,
        };
        blocked && !self.is_complete()
    }

    /// Drives the run: first replays the given schedule of actor indices
    /// (out-of-range or blocked entries move nothing), then lets any
    /// still-enabled actor move until every actor has finished or no one
    /// can move.  The run always terminates; with a roster in which every
    /// actor acquires its lower-indexed resource first it never gets
    /// stuck, so it returns `true` whatever the schedule was.
    pub fn run(&mut self, schedule: &Vec<usize>) -> (complete: bool)
        requires
            old(self).wf(),
        ensures
            final(self).wf(),
            final(self).philosophers@ == old(self).philosophers@,
            final(self).n_resources == old(self).n_resources,
            complete == final(self).all_done(),
            roster_ordered(old(self).philosophers@) ==> complete,
            complete ==> count_events(final(self).log@, EventKind::Begin) == final(self).n_actors()
                && count_events(final(self).log@, EventKind::End) == final(self).n_actors()
                && final(self).log@.len() == 2 * final(self).n_actors(),
    {
        let n = self.philosophers.len();
        let mut i: usize = 0;
        while i < schedule.len()
            invariant
                self.wf(),
                self.philosophers@ == old(self).philosophers@,
                self.n_resources == old(self).n_resources,
                n == self.n_actors(),
                i <= schedule.len(),
            decreases schedule.len() - i,
        {
            let k = schedule[i];
            if k < n {
                self.step(k);
            }
            i = i + 1;
        }
        let mut stuck = false;
        while !stuck && !self.is_complete()
            invariant
                self.wf(),
                self.philosophers@ == old(self).philosophers@,
                self.n_resources == old(self).n_resources,
                n == self.n_actors(),
                stuck ==> self.none_enabled() && !self.all_done(),
            decreases (if stuck {
                0int
            } else {
                1int
            }), 3 * self.n_actors() - total_rank(self.phases@),
        {
            proof {
                lemma_total_rank_le(self.phases@);
            }
            match self.find_enabled() {
                Some(k) => {
                    self.step(k);
                },
                None => {
                    stuck = true;
                },
            }
            proof {
                lemma_total_rank_le(self.phases@);
            }
        }
        let complete = self.is_complete();
        proof {
            if !complete && roster_ordered(self.philosophers@) {
                // A stuck run contradicts deadlock freedom.
                self.lemma_no_deadlock();
                let a = choose|a: int| 0 <= a < self.n_actors() && #[trigger] self.enabled(a);
                assert(!self.enabled(a));
            }
            if complete {
                self.lemma_complete_log_counts();
            }
        }
        complete
    }

    /// Mutual exclusion: no two distinct actors hold the same resource
    /// slot at the same instant.
    pub proof fn lemma_mutual_exclusion(self, k1: int, k2: int, r: int)
        requires
            self.wf(),
            0 <= k1 < self.n_actors(),
            0 <= k2 < self.n_actors(),
            k1 != k2,
            0 <= r < self.n_resources(),
            self.holds(k1, r),
        ensures
            !self.holds(k2, r),
    {
        assert(self.holder@[r] == Some(k1 as usize));
        if self.holds(k2, r) {
            assert(self.holder@[r] == Some(k2 as usize));
        }
    }

    /// Starting from an actor that holds its first resource, following
    /// the chain of holders reaches an actor that can move: each blocked
    /// actor of the chain waits for a strictly higher-indexed slot held
    /// by the next, so with every actor acquiring its lower-indexed
    /// resource first the chain cannot close into a cycle.
    proof fn lemma_chain_finds_enabled(self, k: int)
        requires
            self.wf(),
            roster_ordered(self.philosophers@),
            0 <= k < self.n_actors(),
            self.phase_of(k) == Phase::HasFirst,
        ensures
            exists|a: int| 0 <= a < self.n_actors() && #[trigger] self.enabled(a),
        decreases self.n_resources() - self.philosophers@[k].left,
    {
        if self.enabled(k) {
        } else {
            // `k` is blocked, so its second slot is held by some actor
            // `h`, which holds at least its own first slot.
            let rr = self.philosophers@[k].right as int;
            assert(self.holder@[rr] is Some);
            let h = self.holder@[rr]->Some_0;
            assert(h < self.n_actors());
            assert(self.holds(h as int, rr));
            if self.phase_of(h as int) == Phase::Eating {
                // An eating actor can always move.
                assert(self.enabled(h as int));
            } else {
                // `h` holds only its first slot, so that slot is `k`'s
                // second: `h`'s held index is strictly higher than `k`'s.
                assert(self.phase_of(h as int) == Phase::HasFirst);
                assert(self.philosophers@[h as int].left == self.philosophers@[k].right);
                self.lemma_chain_finds_enabled(h as int);
            }
        }
    }

    /// Deadlock freedom: when every actor acquires its lower-indexed
    /// resource first, some actor can move as long as not every actor has
    /// finished.
    pub proof fn lemma_no_deadlock(self)
        requires
            self.wf(),
            roster_ordered(self.philosophers@),
            !self.all_done(),
        ensures
            exists|a: int| 0 <= a < self.n_actors() && #[trigger] self.enabled(a),
    {
        let k = choose|k: int| 0 <= k < self.n_actors() && self.phase_of(k) != Phase::Done;
        if self.phase_of(k) == Phase::Hungry {
            if self.enabled(k) {
            } else {
                // `k`'s first slot is held by some actor, which holds at
                // least its own first slot.
                let ll = self.philosophers@[k].left as int;
                assert(self.holder@[ll] is Some);
                let h = self.holder@[ll]->Some_0;
                assert(h < self.n_actors());
                assert(self.holds(h as int, ll));
                if self.phase_of(h as int) == Phase::Eating {
                    assert(self.enabled(h as int));
                } else {
                    assert(self.phase_of(h as int) == Phase::HasFirst);
                    self.lemma_chain_finds_enabled(h as int);
                }
            }
        } else if self.phase_of(k) == Phase::HasFirst {
            self.lemma_chain_finds_enabled(k);
        } else {
            assert(self.enabled(k));
        }
    }

    /// An end event is never logged before the same actor's begin event:
    /// every end event in the log has an earlier begin event of the same
    /// actor.
    pub proof fn lemma_end_after_begin(self, i: int)
        requires
            self.wf(),
            0 <= i < self.log@.len(),
            self.log@[i].kind == EventKind::End,
        ensures
            exists|j: int|
                0 <= j < i && (#[trigger] self.log@[j]).actor == self.log@[i].actor
                    && self.log@[j].kind == EventKind::Begin,
    {
        let log = self.log@;
        let k = log[i].actor as int;
        let p = log.take(i + 1);
        assert(p.drop_last() =~= log.take(i));
        assert(p.last() == log[i]);
        assert(count_actor_events(p, k, EventKind::End) >= 1);
        assert(count_actor_events(p, k, EventKind::End) <= count_actor_events(
            p,
            k,
            EventKind::Begin,
        ));
        lemma_count_actor_events_pos(p, k, EventKind::Begin);
        let j = choose|j: int|
            0 <= j < p.len() && (#[trigger] p[j]).actor as int == k && p[j].kind == EventKind::Begin;
        assert(p[j] == log[j]);
        assert(j != i);
        assert(log[j].actor == log[i].actor && log[j].kind == EventKind::Begin);
    }

    /// After a complete run every actor ate exactly once: the log holds
    /// one begin and one end event per actor, and two lines per actor in
    /// total.
    pub proof fn lemma_complete_log_counts(self)
        requires
            self.wf(),
            self.all_done(),
        ensures
            count_events(self.log@, EventKind::Begin) == self.n_actors(),
            count_events(self.log@, EventKind::End) == self.n_actors(),
            self.log@.len() == 2 * self.n_actors(),
            forall|k: int|
                0 <= k < self.n_actors() ==> count_actor_events(self.log@, k, EventKind::Begin)
                    == 1 && count_actor_events(self.log@, k, EventKind::End) == 1,
    {
        assert forall|k: int| 0 <= k < self.phases@.len() implies self.phases@[k]
            == Phase::Done by {
            assert(self.phase_of(k) == Phase::Done);
        }
        lemma_counts_when_all_done(self.phases@);
        assert forall|k: int| 0 <= k < self.n_actors() implies count_actor_events(
            self.log@,
            k,
            EventKind::Begin,
        ) == 1 && count_actor_events(self.log@, k, EventKind::End) == 1 by {
            assert(self.phase_of(k) == Phase::Done);
        }
    }
}

/// How many of the log's events belong to actor `k` and have kind `kind`.
pub open spec fn count_actor_events(log: Seq<Event>, k: int, kind: EventKind) -> nat
    decreases log.len(),
{
    if log.len() == 0 {
        0
    } else {
        count_actor_events(log.drop_last(), k, kind) + (
        if log.last().actor as int == k && log.last().kind == kind {
            1nat
        } else {
            0nat
        })
    }
}

/// How many of the log's events have kind `kind`.
pub open spec fn count_events(log: Seq<Event>, kind: EventKind) -> nat
    decreases log.len(),
{
    if log.len() == 0 {
        0
    } else {
        count_events(log.drop_last(), kind) + (
        if log.last().kind == kind {
            1nat
        } else {
            0nat
        })
    }
}

/// In every prefix of the log, no actor has logged more end events than
/// begin events: an end event is never logged before the same actor's
/// begin event.
pub open spec fn ends_follow_begins(log: Seq<Event>) -> bool {
    forall|k: int, i: int|
        0 <= i <= log.len() ==> #[trigger] count_actor_events(log.take(i), k, EventKind::End)
            <= count_actor_events(log.take(i), k, EventKind::Begin)
}

/// One if the phase is past the begin event (eating or done), else zero.
pub open spec fn begun_ind(p: Phase) -> nat {
    if p == Phase::Eating || p == Phase::Done {
        1
    } else {
        0
    }
}

/// One if the phase is done, else zero.
pub open spec fn done_ind(p: Phase) -> nat {
    if p == Phase::Done {
        1
    } else {
        0
    }
}

/// How many actors have begun eating (are eating now or already done).
pub open spec fn count_begun(phases: Seq<Phase>) -> nat
    decreases phases.len(),
{
    if phases.len() == 0 {
        0
    } else {
        count_begun(phases.drop_last()) + begun_ind(phases.last())
    }
}

/// How many actors are done.
pub open spec fn count_done(phases: Seq<Phase>) -> nat
    decreases phases.len(),
{
    if phases.len() == 0 {
        0
    } else {
        count_done(phases.drop_last()) + done_ind(phases.last())
    }
}

/// How far the run has progressed in total: each actor contributes the
/// number of transitions it has already taken (zero when hungry, three
/// when done).
pub open spec fn phase_rank(p: Phase) -> nat {
    match p {
        Phase::Hungry => 0,
        Phase::HasFirst => 1,
        Phase::Eating => 2,
        Phase::Done => 3,
    }
}

/// The sum of all actors' ranks: a measure that every step increases.
pub open spec fn total_rank(phases: Seq<Phase>) -> nat
    decreases phases.len(),
{
    if phases.len() == 0 {
        0
    } else {
        total_rank(phases.drop_last()) + phase_rank(phases.last())
    }
}

/// Appending a phase extends the three phase counts by its indicators.
proof fn lemma_phase_counts_push(phases: Seq<Phase>, p: Phase)
    ensures
        count_begun(phases.push(p)) == count_begun(phases) + begun_ind(p),
        count_done(phases.push(p)) == count_done(phases) + done_ind(p),
        total_rank(phases.push(p)) == total_rank(phases) + phase_rank(p),
{
    assert(phases.push(p).drop_last() =~= phases);
    assert(phases.push(p).last() == p);
}

/// Appending an event adds one to the matching per-actor count and leaves
/// the others unchanged.
proof fn lemma_count_actor_events_push(log: Seq<Event>, e: Event, k: int, kind: EventKind)
    ensures
        count_actor_events(log.push(e), k, kind) == count_actor_events(log, k, kind) + (
        if e.actor as int == k && e.kind == kind {
            1nat
        } else {
            0nat
        }),
{
    assert(log.push(e).drop_last() =~= log);
    assert(log.push(e).last() == e);
}

/// Appending an event adds one to the matching per-kind count.
proof fn lemma_count_events_push(log: Seq<Event>, e: Event, kind: EventKind)
    ensures
        count_events(log.push(e), kind) == count_events(log, kind) + (
        if e.kind == kind {
            1nat
        } else {
            0nat
        }),
{
    assert(log.push(e).drop_last() =~= log);
    assert(log.push(e).last() == e);
}

/// If the per-actor count is positive, some event of that actor and kind
/// stands in the log.
proof fn lemma_count_actor_events_pos(log: Seq<Event>, k: int, kind: EventKind)
    requires
        count_actor_events(log, k, kind) > 0,
    ensures
        exists|j: int|
            0 <= j < log.len() && (#[trigger] log[j]).actor as int == k && log[j].kind == kind,
    decreases log.len(),
{
    if log.last().actor as int == k && log.last().kind == kind {
        assert(log[log.len() - 1].actor as int == k && log[log.len() - 1].kind == kind);
    } else {
        lemma_count_actor_events_pos(log.drop_last(), k, kind);
        let j = choose|j: int|
            0 <= j < log.drop_last().len() && (#[trigger] log.drop_last()[j]).actor as int == k
                && log.drop_last()[j].kind == kind;
        assert(log[j].actor as int == k && log[j].kind == kind);
    }
}

/// Appending an event keeps every prefix balanced, as long as an end
/// event is only appended by an actor whose begin events still outnumber
/// its end events.
proof fn lemma_ends_follow_begins_push(log: Seq<Event>, e: Event)
    requires
        ends_follow_begins(log),
        e.kind == EventKind::End ==> count_actor_events(log, e.actor as int, EventKind::End) + 1
            <= count_actor_events(log, e.actor as int, EventKind::Begin),
    ensures
        ends_follow_begins(log.push(e)),
{
    let new = log.push(e);
    assert forall|k: int, i: int| 0 <= i <= new.len() implies #[trigger] count_actor_events(
        new.take(i),
        k,
        EventKind::End,
    ) <= count_actor_events(new.take(i), k, EventKind::Begin) by {
        if i <= log.len() {
            assert(new.take(i) =~= log.take(i));
            assert(count_actor_events(log.take(i), k, EventKind::End) <= count_actor_events(
                log.take(i),
                k,
                EventKind::Begin,
            ));
        } else {
            assert(new.take(i) =~= new);
            assert(log.take(log.len() as int) =~= log);
            assert(count_actor_events(log.take(log.len() as int), k, EventKind::End)
                <= count_actor_events(log.take(log.len() as int), k, EventKind::Begin));
            lemma_count_actor_events_push(log, e, k, EventKind::End);
            lemma_count_actor_events_push(log, e, k, EventKind::Begin);
        }
    }
}

/// Replacing one phase shifts `count_begun` by the two indicators.
proof fn lemma_count_begun_update(phases: Seq<Phase>, k: int, p: Phase)
    requires
        0 <= k < phases.len(),
    ensures
        count_begun(phases.update(k, p)) + begun_ind(phases[k]) == count_begun(phases) + begun_ind(
            p,
        ),
    decreases phases.len(),
{
    let u = phases.update(k, p);
    if k == phases.len() - 1 {
        assert(u.drop_last() =~= phases.drop_last());
    } else {
        assert(u.drop_last() =~= phases.drop_last().update(k, p));
        assert(u.last() == phases.last());
        lemma_count_begun_update(phases.drop_last(), k, p);
    }
}

/// Replacing one phase shifts `count_done` by the two indicators.
proof fn lemma_count_done_update(phases: Seq<Phase>, k: int, p: Phase)
    requires
        0 <= k < phases.len(),
    ensures
        count_done(phases.update(k, p)) + done_ind(phases[k]) == count_done(phases) + done_ind(p),
    decreases phases.len(),
{
    let u = phases.update(k, p);
    if k == phases.len() - 1 {
        assert(u.drop_last() =~= phases.drop_last());
    } else {
        assert(u.drop_last() =~= phases.drop_last().update(k, p));
        assert(u.last() == phases.last());
        lemma_count_done_update(phases.drop_last(), k, p);
    }
}

/// Replacing one phase shifts the total rank by the two ranks.
proof fn lemma_total_rank_update(phases: Seq<Phase>, k: int, p: Phase)
    requires
        0 <= k < phases.len(),
    ensures
        total_rank(phases.update(k, p)) + phase_rank(phases[k]) == total_rank(phases) + phase_rank(
            p,
        ),
    decreases phases.len(),
{
    let u = phases.update(k, p);
    if k == phases.len() - 1 {
        assert(u.drop_last() =~= phases.drop_last());
    } else {
        assert(u.drop_last() =~= phases.drop_last().update(k, p));
        assert(u.last() == phases.last());
        lemma_total_rank_update(phases.drop_last(), k, p);
    }
}

/// The total rank never exceeds three per actor.
proof fn lemma_total_rank_le(phases: Seq<Phase>)
    ensures
        total_rank(phases) <= 3 * phases.len(),
    decreases phases.len(),
{
    if phases.len() > 0 {
        lemma_total_rank_le(phases.drop_last());
    }
}

/// Once every actor is done, both phase counts equal the roster size.
proof fn lemma_counts_when_all_done(phases: Seq<Phase>)
    requires
        forall|k: int| 0 <= k < phases.len() ==> phases[k] == Phase::Done,
    ensures
        count_begun(phases) == phases.len(),
        count_done(phases) == phases.len(),
    decreases phases.len(),
{
    if phases.len() > 0 {
        assert(forall|k: int|
            0 <= k < phases.drop_last().len() ==> phases.drop_last()[k] == phases[k]);
        lemma_counts_when_all_done(phases.drop_last());
    }
}

} // verus!
