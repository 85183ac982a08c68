//! Timer-driven deferred work.
//!
//! The task queue keeps repeating and one-shot tasks against an internal
//! clock that advances with every tick by the frame's delta. On each tick it
//! scans: a repeating task whose elapsed time has reached its interval hands
//! its callable over and restarts its timer; a due one-shot hands over and
//! is dropped; everything else is retained unchanged. Handed-over callables
//! accumulate in a batch that the frame scheduler collects once per tick.
//!
//! Callables are `Copy` tokens — the kernel never runs them itself; the
//! frame loop does.

use vstd::prelude::*;
use crate::event::LayerEvent;
use crate::layer::LayerDispatch;
use crate::plugin::PluginInfo;

verus! {

/// An interval of zero: the task is due on every tick.
pub const EVERY_FRAME: u64 = 0;

/// One scheduled task. `repeats` is the interval (or, for a one-shot, the
/// delay) in nanoseconds; `last_executed` is the queue-clock instant the
/// timer last restarted.
#[derive(Clone, Copy)]
pub struct Task<C> {
    pub id: u64,
    pub cb: C,
    pub repeats: u64,
    pub last_executed: u64,
}

impl<C> Task<C> {
    pub fn new(id: u64, repeats: u64, cb: C, now: u64) -> (r: Task<C>)
        ensures
            r == (Task { id, cb, repeats, last_executed: now }),
    {
        Task { id, cb, repeats, last_executed: now }
    }
}

/// Whether a task's timer has reached its interval at clock instant `now`:
/// the elapsed time since its last restart is at least `repeats`.
pub open spec fn due<C>(t: Task<C>, now: u64) -> bool {
    now - t.last_executed >= t.repeats
}

/// The callables of the due tasks, in task order.
pub open spec fn due_callables<C>(s: Seq<Task<C>>, now: u64) -> Seq<C>
    decreases s.len(),
{
    if s.len() == 0 {
        Seq::<C>::empty()
    } else {
        let rest = due_callables(s.drop_last(), now);
        if due(s.last(), now) {
            rest.push(s.last().cb)
        } else {
            rest
        }
    }
}

/// The tasks not yet due, in task order.
pub open spec fn retained_tasks<C>(s: Seq<Task<C>>, now: u64) -> Seq<Task<C>>
    decreases s.len(),
{
    if s.len() == 0 {
        s
    } else {
        let rest = retained_tasks(s.drop_last(), now);
        if due(s.last(), now) {
            rest
        } else {
            rest.push(s.last())
        }
    }
}

/// The tasks whose id differs from `id`, in task order.
pub open spec fn without_id<C>(s: Seq<Task<C>>, id: u64) -> Seq<Task<C>>
    decreases s.len(),
{
    if s.len() == 0 {
        s
    } else {
        let rest = without_id(s.drop_last(), id);
        if s.last().id == id {
            rest
        } else {
            rest.push(s.last())
        }
    }
}

/// Whether some due task of the run carries callable `c`.
pub open spec fn from_due_task<C>(s: Seq<Task<C>>, now: u64, c: C) -> bool {
    exists|t: Task<C>| s.contains(t) && due(t, now) && t.cb == c
}

/// Every handed-over callable belongs to a due task of the scanned run.
pub proof fn lemma_due_callables_members<C>(s: Seq<Task<C>>, now: u64)
    ensures
        forall|k: int|
            0 <= k < due_callables(s, now).len() ==> from_due_task(
                s,
                now,
                #[trigger] due_callables(s, now)[k],
            ),
    decreases s.len(),
{
    if s.len() > 0 {
        lemma_due_callables_members(s.drop_last(), now);
        assert forall|k: int|
            0 <= k < due_callables(s, now).len() implies from_due_task(
            s,
            now,
            #[trigger] due_callables(s, now)[k],
        ) by {
            let rest = due_callables(s.drop_last(), now);
            if k < rest.len() {
                assert(due_callables(s, now)[k] == rest[k]);
                assert(from_due_task(s.drop_last(), now, rest[k]));
                let t = choose|t: Task<C>|
                    s.drop_last().contains(t) && due(t, now) && t.cb == rest[k];
                let j = choose|j: int| 0 <= j < s.drop_last().len() && s.drop_last()[j] == t;
                assert(s[j] == t);
                assert(s.contains(t));
            } else {
                assert(due(s.last(), now));
                assert(due_callables(s, now)[k] == s.last().cb);
                assert(s[s.len() - 1] == s.last());
                assert(s.contains(s.last()));
            }
        }
    }
}

/// Every retained task was scheduled and is not due.
pub proof fn lemma_retained_members<C>(s: Seq<Task<C>>, now: u64)
    ensures
        forall|k: int|
            0 <= k < retained_tasks(s, now).len() ==> s.contains(
                #[trigger] retained_tasks(s, now)[k],
            ) && !due(retained_tasks(s, now)[k], now),
    decreases s.len(),
{
    if s.len() > 0 {
        lemma_retained_members(s.drop_last(), now);
        assert forall|k: int|
            0 <= k < retained_tasks(s, now).len() implies s.contains(
            #[trigger] retained_tasks(s, now)[k],
        ) && !due(retained_tasks(s, now)[k], now) by {
            let rest = retained_tasks(s.drop_last(), now);
            if k < rest.len() {
                assert(retained_tasks(s, now)[k] == rest[k]);
                let j = choose|j: int| 0 <= j < s.drop_last().len() && s.drop_last()[j] == rest[k];
                assert(s[j] == rest[k]);
            } else {
                assert(retained_tasks(s, now)[k] == s.last());
                assert(s[s.len() - 1] == s.last());
            }
        }
    }
}

/// Every task that survives a cancellation was scheduled and carries some
/// other id.
pub proof fn lemma_without_id_members<C>(s: Seq<Task<C>>, id: u64)
    ensures
        forall|k: int|
            0 <= k < without_id(s, id).len() ==> s.contains(#[trigger] without_id(s, id)[k])
                && without_id(s, id)[k].id != id,
    decreases s.len(),
{
    if s.len() > 0 {
        lemma_without_id_members(s.drop_last(), id);
        assert forall|k: int|
            0 <= k < without_id(s, id).len() implies s.contains(#[trigger] without_id(s, id)[k])
            && without_id(s, id)[k].id != id by {
            let rest = without_id(s.drop_last(), id);
            if k < rest.len() {
                assert(without_id(s, id)[k] == rest[k]);
                let j = choose|j: int| 0 <= j < s.drop_last().len() && s.drop_last()[j] == rest[k];
                assert(s[j] == rest[k]);
            } else {
                assert(without_id(s, id)[k] == s.last());
                assert(s[s.len() - 1] == s.last());
            }
        }
    }
}

/// What one tick of `delta` does to the whole queue — the scan's full
/// effect, from a well-formed state: the clock advances by `delta`
/// (saturating), every due repeating task restarts its timer, every due
/// one-shot is dropped, everything else is retained unchanged, and the
/// handed-over batch grows by exactly the due callables, repeating first,
/// each batch in task order.
pub open spec fn tick_rel<C: Copy>(pre: Tasks<C>, delta: u64, post: Tasks<C>) -> bool {
    &&& post.wf()
    &&& post.spec_clock() == (if pre.spec_clock() + delta <= u64::MAX {
        pre.spec_clock() + delta
    } else {
        u64::MAX as int
    })
    &&& post.spec_next_id() == pre.spec_next_id()
    &&& post.repeating_tasks().len() == pre.repeating_tasks().len()
    &&& (forall|i: int|
        0 <= i < pre.repeating_tasks().len() ==> #[trigger] post.repeating_tasks()[i] == (if due(
            pre.repeating_tasks()[i],
            post.spec_clock(),
        ) {
            Task { last_executed: post.spec_clock(), ..pre.repeating_tasks()[i] }
        } else {
            pre.repeating_tasks()[i]
        }))
    &&& post.oneshot_tasks() == retained_tasks(pre.oneshot_tasks(), post.spec_clock())
    &&& post.pending_handover() == pre.pending_handover() + due_callables(
        pre.repeating_tasks(),
        post.spec_clock(),
    ) + due_callables(pre.oneshot_tasks(), post.spec_clock())
}

/// The timer-driven task queue.
pub struct Tasks<C> {
    tasks: Vec<Task<C>>,
    oneshots: Vec<Task<C>>,
    handover: Vec<C>,
    next_id: u64,
    clock: u64,
}

impl<C: Copy> Tasks<C> {
    /// The repeating tasks, in registration order.
    pub closed spec fn repeating_tasks(&self) -> Seq<Task<C>> {
        self.tasks@
    }

    /// The pending one-shot tasks, in registration order.
    pub closed spec fn oneshot_tasks(&self) -> Seq<Task<C>> {
        self.oneshots@
    }

    /// Callables handed over but not yet collected by the scheduler.
    pub closed spec fn pending_handover(&self) -> Seq<C> {
        self.handover@
    }

    /// The queue's internal clock: the sum of all tick deltas seen so far.
    pub closed spec fn spec_clock(&self) -> u64 {
        self.clock
    }

    /// The next task id to be issued.
    pub closed spec fn spec_next_id(&self) -> u64 {
        self.next_id
    }

    /// No timer is set in the future, and every id is below `next_id`.
    pub open spec fn wf(&self) -> bool {
        &&& forall|i: int|
            0 <= i < self.repeating_tasks().len() ==> (#[trigger] self.repeating_tasks()[i]).last_executed
                <= self.spec_clock() && self.repeating_tasks()[i].id < self.spec_next_id()
        &&& forall|i: int|
            0 <= i < self.oneshot_tasks().len() ==> (#[trigger] self.oneshot_tasks()[i]).last_executed
                <= self.spec_clock() && self.oneshot_tasks()[i].id < self.spec_next_id()
    }

    pub fn new() -> (r: Tasks<C>)
        ensures
            r.repeating_tasks() == Seq::<Task<C>>::empty(),
            r.oneshot_tasks() == Seq::<Task<C>>::empty(),
            r.pending_handover() == Seq::<C>::empty(),
            r.spec_clock() == 0,
            r.spec_next_id() == 0,
            r.wf(),
    {
        Tasks { tasks: Vec::new(), oneshots: Vec::new(), handover: Vec::new(), next_id: 0, clock: 0 }
    }

    /// Schedules `task` to run every `interval` (the first time once
    /// `interval` has elapsed) and returns its cancellation id.
    pub fn repeating(&mut self, interval: u64, task: C) -> (r: u64)
        requires
            old(self).spec_next_id() < u64::MAX,
        ensures
            r == old(self).spec_next_id(),
            final(self).repeating_tasks() == old(self).repeating_tasks().push(
                Task { id: r, cb: task, repeats: interval, last_executed: old(self).spec_clock() },
            ),
            final(self).oneshot_tasks() == old(self).oneshot_tasks(),
            final(self).pending_handover() == old(self).pending_handover(),
            final(self).spec_clock() == old(self).spec_clock(),
            final(self).spec_next_id() == old(self).spec_next_id() + 1,
            old(self).wf() ==> final(self).wf(),
    {
        let id = self.next_id;
        self.next_id = self.next_id + 1;
        let t = Task::new(id, interval, task, self.clock);
        self.tasks.push(t);
        proof {
            if old(self).wf() {
                assert forall|i: int|
                    0 <= i < self.tasks@.len() implies (#[trigger] self.tasks@[i]).last_executed
                    <= self.clock && self.tasks@[i].id < self.next_id by {
                    if i < old(self).repeating_tasks().len() {
                        assert(self.tasks@[i] == old(self).repeating_tasks()[i]);
                    }
                }
            }
        }
        id
    }

    /// Schedules `task` to run once, `delay` after now, and returns its
    /// cancellation id.
    pub fn oneshot(&mut self, delay: u64, task: C) -> (r: u64)
        requires
            old(self).spec_next_id() < u64::MAX,
        ensures
            r == old(self).spec_next_id(),
            final(self).oneshot_tasks() == old(self).oneshot_tasks().push(
                Task { id: r, cb: task, repeats: delay, last_executed: old(self).spec_clock() },
            ),
            final(self).repeating_tasks() == old(self).repeating_tasks(),
            final(self).pending_handover() == old(self).pending_handover(),
            final(self).spec_clock() == old(self).spec_clock(),
            final(self).spec_next_id() == old(self).spec_next_id() + 1,
            old(self).wf() ==> final(self).wf(),
    {
        let id = self.next_id;
        self.next_id = self.next_id + 1;
        let t = Task::new(id, delay, task, self.clock);
        self.oneshots.push(t);
        proof {
            if old(self).wf() {
                assert forall|i: int|
                    0 <= i < self.oneshots@.len() implies (#[trigger] self.oneshots@[i]).last_executed
                    <= self.clock && self.oneshots@[i].id < self.next_id by {
                    if i < old(self).oneshot_tasks().len() {
                        assert(self.oneshots@[i] == old(self).oneshot_tasks()[i]);
                    }
                }
            }
        }
        id
    }

    /// Drops every task with the given id, repeating or one-shot, whether or
    /// not it is already past due; unknown ids are a no-op. A cancelled task
    /// can never be handed over by a later scan.
    pub fn cancel(&mut self, task: u64)
        ensures
            final(self).repeating_tasks() == without_id(old(self).repeating_tasks(), task),
            final(self).oneshot_tasks() == without_id(old(self).oneshot_tasks(), task),
            final(self).pending_handover() == old(self).pending_handover(),
            final(self).spec_clock() == old(self).spec_clock(),
            final(self).spec_next_id() == old(self).spec_next_id(),
            old(self).wf() ==> final(self).wf(),
    {
        self.tasks = Self::retain_other_ids(&self.tasks, task);
        self.oneshots = Self::retain_other_ids(&self.oneshots, task);
        proof {
            if old(self).wf() {
                lemma_without_id_members(old(self).repeating_tasks(), task);
                lemma_without_id_members(old(self).oneshot_tasks(), task);
                assert forall|i: int|
                    0 <= i < self.tasks@.len() implies (#[trigger] self.tasks@[i]).last_executed
                    <= self.clock && self.tasks@[i].id < self.next_id by {
                    let t = self.tasks@[i];
                    assert(old(self).repeating_tasks().contains(t));
                    let j = choose|j: int|
                        0 <= j < old(self).repeating_tasks().len() && old(self).repeating_tasks()[j]
                            == t;
                    assert(old(self).repeating_tasks()[j].last_executed <= self.clock);
                }
                assert forall|i: int|
                    0 <= i < self.oneshots@.len() implies (#[trigger] self.oneshots@[i]).last_executed
                    <= self.clock && self.oneshots@[i].id < self.next_id by {
                    let t = self.oneshots@[i];
                    assert(old(self).oneshot_tasks().contains(t));
                    let j = choose|j: int|
                        0 <= j < old(self).oneshot_tasks().len() && old(self).oneshot_tasks()[j]
                            == t;
                    assert(old(self).oneshot_tasks()[j].last_executed <= self.clock);
                }
            }
        }
    }

    /// The tasks whose id differs from `id`, in order.
    fn retain_other_ids(v: &Vec<Task<C>>, id: u64) -> (r: Vec<Task<C>>)
        ensures
            r@ == without_id(v@, id),
    {
        let mut kept: Vec<Task<C>> = Vec::new();
        let n = v.len();
        for i in 0..n
            invariant
                n == v@.len(),
                kept@ == without_id(v@.take(i as int), id),
        {
            let t = v[i];
            proof {
                assert(v@.take(i + 1).drop_last() =~= v@.take(i as int));
                assert(v@.take(i + 1).last() == t);
            }
            if t.id != id {
                kept.push(t);
            }
            proof {
                assert(kept@ == without_id(v@.take(i + 1), id));
            }
        }
        proof {
            assert(v@.take(n as int) =~= v@);
        }
        kept
    }

    /// The tick synchronization point: advances the internal clock by
    /// `delta` (saturating at the clock's maximum) and scans. Every due
    /// repeating task hands its callable over and restarts its timer; every
    /// due one-shot hands over and is dropped; all other tasks are retained
    /// unchanged. The handed-over batch grows by exactly the due callables,
    /// repeating first, each batch in task order.
    pub fn on_tick(&mut self, delta: u64)
        requires
            old(self).wf(),
        ensures
            tick_rel(*old(self), delta, *final(self)),
    {
        self.clock = self.clock.saturating_add(delta);
        let now = self.clock;

        let old_tasks = self.tasks.split_off(0);
        let mut hand: Vec<C> = self.handover.split_off(0);
        let mut scanned: Vec<Task<C>> = Vec::new();
        let ghost rep0 = old_tasks@;
        let ghost h0 = hand@;
        proof {
            assert(rep0 =~= old(self).repeating_tasks());
            assert(h0 =~= old(self).pending_handover());
        }
        let n = old_tasks.len();
        for i in 0..n
            invariant
                n == rep0.len(),
                old_tasks@ == rep0,
                forall|j: int| 0 <= j < rep0.len() ==> (#[trigger] rep0[j]).last_executed <= now,
                scanned@.len() == i,
                forall|j: int|
                    0 <= j < i ==> #[trigger] scanned@[j] == (if due(rep0[j], now) {
                        Task { last_executed: now, ..rep0[j] }
                    } else {
                        rep0[j]
                    }),
                hand@ == h0 + due_callables(rep0.take(i as int), now),
        {
            let t = old_tasks[i];
            proof {
                assert(rep0.take(i + 1).drop_last() =~= rep0.take(i as int));
                assert(rep0.take(i + 1).last() == t);
            }
            if now - t.last_executed >= t.repeats {
                hand.push(t.cb);
                scanned.push(Task { last_executed: now, ..t });
            } else {
                scanned.push(t);
            }
            proof {
                assert(hand@ =~= h0 + due_callables(rep0.take(i + 1), now));
            }
        }
        proof {
            assert(rep0.take(n as int) =~= rep0);
        }

        let old_ones = self.oneshots.split_off(0);
        let mut kept: Vec<Task<C>> = Vec::new();
        let ghost one0 = old_ones@;
        let ghost h1 = hand@;
        proof {
            assert(one0 =~= old(self).oneshot_tasks());
        }
        let m = old_ones.len();
        for i in 0..m
            invariant
                m == one0.len(),
                old_ones@ == one0,
                forall|j: int| 0 <= j < one0.len() ==> (#[trigger] one0[j]).last_executed <= now,
                kept@ == retained_tasks(one0.take(i as int), now),
                hand@ == h1 + due_callables(one0.take(i as int), now),
        {
            let t = old_ones[i];
            proof {
                assert(one0.take(i + 1).drop_last() =~= one0.take(i as int));
                assert(one0.take(i + 1).last() == t);
            }
            if now - t.last_executed >= t.repeats {
                hand.push(t.cb);
            } else {
                kept.push(t);
            }
            proof {
                assert(kept@ == retained_tasks(one0.take(i + 1), now));
                assert(hand@ =~= h1 + due_callables(one0.take(i + 1), now));
            }
        }
        proof {
            assert(one0.take(m as int) =~= one0);
        }

        self.tasks = scanned;
        self.oneshots = kept;
        self.handover = hand;

        proof {
            assert(final(self).pending_handover() =~= old(self).pending_handover() + due_callables(
                old(self).repeating_tasks(),
                now,
            ) + due_callables(old(self).oneshot_tasks(), now));
            assert(final(self).wf()) by {
                lemma_retained_members(one0, now);
                assert forall|i: int|
                    0 <= i < self.oneshots@.len() implies (#[trigger] self.oneshots@[i]).last_executed
                    <= now && self.oneshots@[i].id < self.next_id by {
                    assert(one0.contains(self.oneshots@[i]));
                    let t = self.oneshots@[i];
                    let j = choose|j: int| 0 <= j < one0.len() && one0[j] == t;
                    assert(one0[j].last_executed <= now);
                    assert(one0[j].id < self.next_id);
                }
            }
            assert(tick_rel(*old(self), delta, *final(self)));
        }
    }

    /// Collects the handed-over batch, leaving it empty. The frame scheduler
    /// calls this once per tick and runs what it gets.
    pub fn take_handover(&mut self) -> (r: Vec<C>)
        ensures
            r@ == old(self).pending_handover(),
            final(self).pending_handover() == Seq::<C>::empty(),
            final(self).repeating_tasks() == old(self).repeating_tasks(),
            final(self).oneshot_tasks() == old(self).oneshot_tasks(),
            final(self).spec_clock() == old(self).spec_clock(),
            final(self).spec_next_id() == old(self).spec_next_id(),
            old(self).wf() ==> final(self).wf(),
    {
        let r = self.handover.split_off(0);
        proof {
            assert(r@ =~= old(self).pending_handover());
            assert(self.handover@ =~= Seq::<C>::empty());
            if old(self).wf() {
                assert(self.wf()) by {
                    assert(self.tasks@ == old(self).repeating_tasks());
                    assert(self.oneshots@ == old(self).oneshot_tasks());
                }
            }
        }
        r
    }

    /// Whether the queue is well formed; scanning needs this, and every
    /// queue built and driven through this interface keeps it.
    pub fn is_wf(&self) -> (r: bool)
        ensures
            r == self.wf(),
    {
        let n = self.tasks.len();
        for i in 0..n
            invariant
                n == self.tasks@.len(),
                forall|j: int|
                    0 <= j < i ==> (#[trigger] self.tasks@[j]).last_executed <= self.clock
                        && self.tasks@[j].id < self.next_id,
        {
            let t = &self.tasks[i];
            if t.last_executed > self.clock || t.id >= self.next_id {
                proof {
                    assert(self.repeating_tasks()[i as int] == self.tasks@[i as int]);
                    assert(!self.wf());
                }
                return false;
            }
        }
        let m = self.oneshots.len();
        for i in 0..m
            invariant
                m == self.oneshots@.len(),
                forall|j: int|
                    0 <= j < self.tasks@.len() ==> (#[trigger] self.tasks@[j]).last_executed
                        <= self.clock && self.tasks@[j].id < self.next_id,
                forall|j: int|
                    0 <= j < i ==> (#[trigger] self.oneshots@[j]).last_executed <= self.clock
                        && self.oneshots@[j].id < self.next_id,
        {
            let t = &self.oneshots[i];
            if t.last_executed > self.clock || t.id >= self.next_id {
                proof {
                    assert(self.oneshot_tasks()[i as int] == self.oneshots@[i as int]);
                    assert(!self.wf());
                }
                return false;
            }
        }
        true
    }
}

impl<C: Copy> LayerDispatch<LayerEvent> for Tasks<C> {
    /// A broadcast tick advances the clock by the tick's delta and runs the
    /// whole scan — `tick_rel` — on any well-formed queue; any other event,
    /// and any non-well-formed state, leaves the queue untouched.
    open spec fn dispatch_ensures(&self, event: LayerEvent, post: Self) -> bool {
        match event {
            LayerEvent::Tick(delta) => if self.wf() {
                tick_rel(*self, delta, post)
            } else {
                post == *self
            },
            _ => post == *self,
        }
    }

    fn dispatch(&mut self, event: &LayerEvent) {
        if let LayerEvent::Tick(delta) = event {
            if Self::is_wf(self) {
                self.on_tick(*delta);
            }
        }
    }
}

/// One step of a repeating timer under a tick of length `gap`: the elapsed
/// time since the last firing grows by the gap, and the timer fires and
/// restarts as soon as that elapsed time reaches the interval — exactly the
/// `due` test that the scan applies.
pub open spec fn fire_step(since: int, gap: u64, interval: u64) -> (bool, int) {
    if since + gap >= interval {
        (true, 0)
    } else {
        (false, since + gap)
    }
}

/// How often a repeating timer with the given interval fires over a run of
/// tick gaps, starting `since` after its last firing.
pub open spec fn sim_fires(gaps: Seq<u64>, interval: u64, since: int) -> nat
    decreases gaps.len(),
{
    if gaps.len() == 0 {
        0
    } else {
        let step = fire_step(since, gaps[0], interval);
        (if step.0 {
            1nat
        } else {
            0nat
        }) + sim_fires(gaps.drop_first(), interval, step.1)
    }
}

/// The total elapsed time of a run of tick gaps.
pub open spec fn sum_gaps(gaps: Seq<u64>) -> int
    decreases gaps.len(),
{
    if gaps.len() == 0 {
        0int
    } else {
        gaps[0] + sum_gaps(gaps.drop_first())
    }
}

/// The scan's `due` test is exactly one step of the timer simulation:
/// with the queue clock advanced by one tick of `delta`, a repeating task
/// fires precisely when `fire_step` fires, and its restarted timer leaves
/// exactly the step's elapsed remainder behind.
pub proof fn lemma_scan_is_fire_step<C>(t: Task<C>, clock: u64, delta: u64)
    requires
        t.last_executed <= clock,
        clock + delta <= u64::MAX,
    ensures
        ({
            let now = (clock + delta) as u64;
            let step = fire_step(clock - t.last_executed, delta, t.repeats);
            &&& due(t, now) == step.0
            &&& (if due(t, now) {
                0int
            } else {
                now - t.last_executed
            }) == step.1
        }),
{
}

/// Over elapsed time `E = since + sum_gaps(gaps)`, a repeating task with
/// interval `I` fires at most `E / I` times: each firing needs a full
/// interval to elapse. This is the upper half of "fires about `E / I`
/// times, give or take a tick".
pub proof fn lemma_repeating_fires_at_most(gaps: Seq<u64>, interval: u64, since: int)
    requires
        0 <= since,
    ensures
        sim_fires(gaps, interval, since) * interval <= since + sum_gaps(gaps),
    decreases gaps.len(),
{
    if gaps.len() == 0 {
        assert(sim_fires(gaps, interval, since) == 0);
        assert(sum_gaps(gaps) == 0);
        assert(sim_fires(gaps, interval, since) * interval == 0);
    } else {
        let step = fire_step(since, gaps[0], interval);
        let rest = gaps.drop_first();
        lemma_repeating_fires_at_most(rest, interval, step.1);
        assert(sum_gaps(gaps) == gaps[0] + sum_gaps(rest));
        if step.0 {
            assert(step.1 == 0);
            let restf = sim_fires(rest, interval, 0);
            assert(sim_fires(gaps, interval, since) == 1 + restf);
            assert(restf * interval <= sum_gaps(rest));
            vstd::arithmetic::mul::lemma_mul_is_distributive_add_other_way(
                interval as int,
                1int,
                restf as int,
            );
            assert((1 + restf) * interval == interval + restf * interval);
            assert(since + gaps[0] >= interval);
            assert(sim_fires(gaps, interval, since) * interval <= since + sum_gaps(gaps));
        } else {
            assert(sim_fires(gaps, interval, since) == sim_fires(rest, interval, step.1));
            assert(sim_fires(gaps, interval, since) * interval <= since + sum_gaps(gaps));
        }
    }
}

/// When no tick gap exceeds `bound` and the timer starts at most an
/// interval past its last firing, the elapsed time is covered by the
/// firings: `E <= fires * (I + bound) + I`. So the task fires at least
/// about `(E - I) / (I + bound)` times — the lower half of "fires about
/// `E / I` times, give or take a tick" when ticks are much shorter than the
/// interval.
pub proof fn lemma_repeating_fires_at_least(gaps: Seq<u64>, interval: u64, since: int, bound: u64)
    requires
        0 <= since <= interval,
        forall|i: int| 0 <= i < gaps.len() ==> #[trigger] gaps[i] <= bound,
    ensures
        since + sum_gaps(gaps) <= sim_fires(gaps, interval, since) * (interval + bound) + interval,
    decreases gaps.len(),
{
    if gaps.len() > 0 {
        let step = fire_step(since, gaps[0], interval);
        let rest = gaps.drop_first();
        assert(forall|i: int| 0 <= i < rest.len() ==> #[trigger] rest[i] <= bound) by {
            assert(forall|i: int| 0 <= i < rest.len() ==> rest[i] == gaps[i + 1]);
        }
        lemma_repeating_fires_at_least(rest, interval, step.1, bound);
        assert(sum_gaps(gaps) == gaps[0] + sum_gaps(rest));
        if step.0 {
            assert(step.1 == 0);
            let restf = sim_fires(rest, interval, 0);
            assert(sim_fires(gaps, interval, since) == 1 + restf);
            assert(sum_gaps(rest) <= restf * (interval + bound) + interval);
            vstd::arithmetic::mul::lemma_mul_is_distributive_add_other_way(
                (interval + bound) as int,
                1int,
                restf as int,
            );
            assert((1 + restf) * (interval + bound) == (interval + bound) + restf * (interval
                + bound));
            assert(since + gaps[0] <= interval + bound);
        } else {
            assert(sim_fires(gaps, interval, since) == sim_fires(rest, interval, step.1));
        }
    }
}

/// Whether some scheduled task other than `id` carries callable `c`.
pub open spec fn from_other_task<C>(s: Seq<Task<C>>, id: u64, c: C) -> bool {
    exists|t: Task<C>| s.contains(t) && t.id != id && t.cb == c
}

/// Once a task id is cancelled, no scan can hand its callable over: every
/// handed-over callable belongs to a task that is still scheduled, and after
/// cancellation no scheduled task — due or not — carries the cancelled id.
pub proof fn lemma_cancelled_never_fires<C>(s: Seq<Task<C>>, id: u64, now: u64)
    requires
        forall|j: int| 0 <= j < s.len() ==> (#[trigger] s[j]).id != id,
    ensures
        forall|k: int|
            0 <= k < due_callables(s, now).len() ==> from_other_task(
                s,
                id,
                #[trigger] due_callables(s, now)[k],
            ),
{
    lemma_due_callables_members(s, now);
    assert forall|k: int|
        0 <= k < due_callables(s, now).len() implies from_other_task(
        s,
        id,
        #[trigger] due_callables(s, now)[k],
    ) by {
        assert(from_due_task(s, now, due_callables(s, now)[k]));
        let t = choose|t: Task<C>|
            s.contains(t) && due(t, now) && t.cb == due_callables(s, now)[k];
        let j = choose|j: int| 0 <= j < s.len() && s[j] == t;
        assert(s[j].id != id);
        assert(s.contains(t) && t.id != id && t.cb == due_callables(s, now)[k]);
    }
}

/// The descriptor of the task-queue plugin, which depends on the core.
pub struct TasksPlugin {
    pub identity: u64,
    pub core_identity: u64,
}

impl TasksPlugin {
    pub fn info(&self) -> (r: PluginInfo)
        ensures
            r.identity == self.identity,
            r.deps@ == seq![self.core_identity],
            r.name@ == "Tasks"@,
    {
        let info = PluginInfo::build(self.identity, "Tasks".to_owned());
        let info = info.dep(self.core_identity);
        proof {
            assert(info.deps@ =~= seq![self.core_identity]);
        }
        info
    }
}

} // verus!
