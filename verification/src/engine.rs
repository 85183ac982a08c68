//! The frame scheduler's decision core.
//!
//! The runtime drives a dedicated frame thread: each iteration drains
//! control messages, runs the per-frame hook phases around a tick
//! broadcast, executes deferred callables, and paces itself to the fps cap.
//! Everything that decides — message handling, hook and task sequencing,
//! and the pacing arithmetic — lives here as verified functions over plain
//! state; the thread, the channels, the clock and the sleeping are the
//! host program's ten lines around them.
//!
//! All durations are nanoseconds.

use vstd::prelude::*;
use crate::plugin::PluginInfo;

verus! {

/// What the frame thread sends the host: an event to broadcast through the
/// registry, or the final termination notice.
pub enum CoreMsg<E> {
    Terminate,
    Dispatch(E),
}

/// One frame-phase invocation as a hook observes it; `Tick` records the
/// frame delta the hook was handed.
#[derive(Debug, Clone, Copy, PartialEq, Eq, Structural)]
pub enum Phase {
    Prepare,
    Tick(u64),
    Finish,
}

/// A prepare/tick/finish triple run every frame, in registration order,
/// until the scheduler stops.
///
/// `phases()` is the hook's own record of every phase invocation it has
/// observed, oldest first; an implementation must show that each phase
/// method appends exactly its phase. The frame loop's guarantees that
/// every hook runs in every phase are stated over this record.
pub trait CoreHook: Sized {
    spec fn phases(&self) -> Seq<Phase>;

    fn prepare(&mut self)
        ensures
            final(self).phases() == old(self).phases().push(Phase::Prepare),
    ;

    fn tick(&mut self, frame_info: &FrameInfo)
        ensures
            final(self).phases() == old(self).phases().push(Phase::Tick(frame_info.delta)),
    ;

    fn finish(&mut self)
        ensures
            final(self).phases() == old(self).phases().push(Phase::Finish),
    ;
}

/// A deferred callable as the frame loop runs it.
///
/// `runs()` is the callable's own record of its invocations — the frame
/// delta of each run, oldest first; an implementation must show that `run`
/// appends exactly the delta it was handed. The frame loop's guarantee
/// that every handed-over callable runs exactly once is stated over this
/// record.
pub trait MainLoopTask: Sized {
    spec fn runs(&self) -> Seq<u64>;

    fn run(&mut self, frame_info: &FrameInfo) -> (r: Result<(), String>)
        ensures
            final(self).runs() == old(self).runs().push(frame_info.delta),
    ;
}

/// What a frame phase learns about the frame being produced.
pub struct FrameInfo {
    pub delta: u64,
}

/// Control messages from the host to the frame thread, drained once per
/// iteration.
pub enum MainLoopMsg<C, H> {
    Terminate,
    SetFpsCap(u32),
    SetTasks(Vec<C>),
    AddHooks(Vec<H>),
}

/// The hard fps ceiling: one millisecond per frame, a thousand frames per
/// second. A cap requesting more is clamped here.
pub const MIN_FRAME_TIME: u64 = 1_000_000;

pub const NANOS_PER_SEC: u64 = 1_000_000_000;

/// The default cap of 120 frames per second.
pub const DEFAULT_FPS_CAP: u32 = 120;

/// The per-frame time budget for a requested cap, clamped so it never drops
/// below [`MIN_FRAME_TIME`].
pub open spec fn fps_target(cap: u32) -> u64 {
    if cap == 0 {
        MIN_FRAME_TIME
    } else if (NANOS_PER_SEC as int) / (cap as int) < MIN_FRAME_TIME {
        MIN_FRAME_TIME
    } else {
        ((NANOS_PER_SEC as int) / (cap as int)) as u64
    }
}

/// Computes the clamped per-frame time budget for a requested cap. Caps
/// above a thousand frames per second land on the hard ceiling; the caller
/// may warn about them.
pub fn fps_cap_duration(cap: u32) -> (r: u64)
    requires
        cap >= 1,
    ensures
        r == fps_target(cap),
        r >= MIN_FRAME_TIME,
{
    let target = NANOS_PER_SEC / (cap as u64);
    if target < MIN_FRAME_TIME {
        MIN_FRAME_TIME
    } else {
        target
    }
}

/// The 120 Hz budget is 8 333 333 ns — within one nanosecond below a
/// hundred-and-twentieth of a second — and pacing reports every delta at or
/// above the budget, so after warm-up no observed delta under-represents
/// the configured period.
pub proof fn lemma_default_cap_budget()
    ensures
        fps_target(DEFAULT_FPS_CAP) == 8_333_333,
        (fps_target(DEFAULT_FPS_CAP) + 1) * 120 > NANOS_PER_SEC,
{
}

/// End-of-frame pacing: how long to sleep and what delta to report.
///
/// If the frame took less than the budget, the scheduler sleeps the
/// remainder and reports the full budget, so the reported delta never
/// under-represents the configured period; a frame over budget sleeps
/// nothing and reports its true duration. Either way the reported delta is
/// the larger of the two.
pub fn pace(elapsed: u64, fps_cap: u64) -> (r: (u64, u64))
    ensures
        r.0 == if elapsed < fps_cap {
            fps_cap - elapsed
        } else {
            0
        },
        r.1 == elapsed + r.0,
        r.1 == if elapsed < fps_cap {
            fps_cap
        } else {
            elapsed
        },
{
    if elapsed < fps_cap {
        (fps_cap - elapsed, fps_cap)
    } else {
        (0, elapsed)
    }
}

/// The frame loop's own state: the current budget, the delta to report on
/// the next tick, and the deferred callables and hooks received so far.
pub struct MainLoopState<C, H> {
    pub fps_cap: u64,
    pub delta: u64,
    pub tasks: Vec<C>,
    pub hooks: Vec<H>,
}

/// A ghost snapshot of the loop state, for stating what message handling
/// does.
pub struct MainLoopView<C, H> {
    pub fps_cap: u64,
    pub delta: u64,
    pub tasks: Seq<C>,
    pub hooks: Seq<H>,
}

/// The effect of one non-terminating control message.
pub open spec fn apply_msg<C, H>(st: MainLoopView<C, H>, msg: MainLoopMsg<C, H>) -> MainLoopView<
    C,
    H,
> {
    match msg {
        MainLoopMsg::Terminate => st,
        MainLoopMsg::SetFpsCap(cap) => MainLoopView { fps_cap: fps_target(cap), ..st },
        MainLoopMsg::SetTasks(ts) => MainLoopView { tasks: st.tasks + ts@, ..st },
        MainLoopMsg::AddHooks(hs) => MainLoopView { hooks: st.hooks + hs@, ..st },
    }
}

/// The effect of a drained batch of control messages, processed in order;
/// a `Terminate` stops the batch at once (messages after it are dropped)
/// and tells the loop to exit.
pub open spec fn apply_msgs<C, H>(
    st: MainLoopView<C, H>,
    msgs: Seq<MainLoopMsg<C, H>>,
) -> (MainLoopView<C, H>, bool)
    decreases msgs.len(),
{
    if msgs.len() == 0 {
        (st, true)
    } else if msgs[0] is Terminate {
        (st, false)
    } else {
        apply_msgs(apply_msg(st, msgs[0]), msgs.drop_first())
    }
}

/// A batch is acceptable when every cap request is at least one frame per
/// second; a cap of zero frames has no per-frame budget at all.
pub open spec fn msgs_wf<C, H>(msgs: Seq<MainLoopMsg<C, H>>) -> bool {
    forall|i: int|
        0 <= i < msgs.len() ==> match #[trigger] msgs[i] {
            MainLoopMsg::SetFpsCap(cap) => cap >= 1,
            _ => true,
        }
}

impl<C, H> MainLoopState<C, H> {
    /// The ghost snapshot of this state.
    pub open spec fn view(&self) -> MainLoopView<C, H> {
        MainLoopView {
            fps_cap: self.fps_cap,
            delta: self.delta,
            tasks: self.tasks@,
            hooks: self.hooks@,
        }
    }

    /// A fresh loop: the default cap, a zero first delta, nothing received.
    pub fn new() -> (r: MainLoopState<C, H>)
        ensures
            r.view().fps_cap == fps_target(DEFAULT_FPS_CAP),
            r.view().delta == 0,
            r.view().tasks == Seq::<C>::empty(),
            r.view().hooks == Seq::<H>::empty(),
    {
        MainLoopState {
            fps_cap: fps_cap_duration(DEFAULT_FPS_CAP),
            delta: 0,
            tasks: Vec::new(),
            hooks: Vec::new(),
        }
    }

    /// Processes one drained batch of control messages, in order. Returns
    /// whether the loop should keep running: false exactly when the batch
    /// held a `Terminate`, which also drops the rest of the batch.
    pub fn handle_msgs(&mut self, msgs: Vec<MainLoopMsg<C, H>>) -> (cont: bool)
        requires
            msgs_wf(msgs@),
        ensures
            final(self).view() == apply_msgs(old(self).view(), msgs@).0,
            cont == apply_msgs(old(self).view(), msgs@).1,
    {
        let mut queue = msgs;
        let ghost all = queue@;
        while queue.len() > 0
            invariant
                all == msgs@,
                msgs_wf(queue@),
                apply_msgs(old(self).view(), all) == apply_msgs(self.view(), queue@),
            decreases queue@.len(),
        {
            let ghost pre = self.view();
            let ghost pending = queue@;
            let msg = queue.remove(0);
            proof {
                assert(queue@ =~= pending.drop_first());
            }
            let ghost m = pending[0];
            match msg {
                MainLoopMsg::Terminate => {
                    proof {
                        assert(m is Terminate);
                        assert(apply_msgs(pre, pending) == (pre, false));
                    }
                    return false;
                },
                MainLoopMsg::SetFpsCap(cap) => {
                    proof {
                        assert(msgs_wf(pending));
                        assert(pending[0] == m);
                        assert(match pending[0] {
                            MainLoopMsg::SetFpsCap(c) => c >= 1,
                            _ => true,
                        });
                        assert(m == MainLoopMsg::<C, H>::SetFpsCap(cap));
                    }
                    self.fps_cap = fps_cap_duration(cap);
                    proof {
                        assert(self.view() == apply_msg(pre, m));
                        assert(apply_msgs(pre, pending) == apply_msgs(self.view(), queue@));
                    }
                },
                MainLoopMsg::SetTasks(ts) => {
                    let mut ts = ts;
                    let ghost tseq = ts@;
                    proof {
                        assert(m == MainLoopMsg::<C, H>::SetTasks(ts));
                    }
                    self.tasks.append(&mut ts);
                    proof {
                        assert(self.tasks@ == pre.tasks + tseq);
                        assert(self.view() == apply_msg(pre, m));
                        assert(apply_msgs(pre, pending) == apply_msgs(self.view(), queue@));
                    }
                },
                MainLoopMsg::AddHooks(hs) => {
                    let mut hs = hs;
                    let ghost hseq = hs@;
                    proof {
                        assert(m == MainLoopMsg::<C, H>::AddHooks(hs));
                    }
                    self.hooks.append(&mut hs);
                    proof {
                        assert(self.hooks@ == pre.hooks + hseq);
                        assert(self.view() == apply_msg(pre, m));
                        assert(apply_msgs(pre, pending) == apply_msgs(self.view(), queue@));
                    }
                },
            }
        }
        proof {
            assert(apply_msgs(self.view(), queue@) == (self.view(), true));
        }
        true
    }
}

/// Runs every hook's prepare phase, in registration order: each hook's
/// phase record grows by exactly one `Prepare`.
pub fn run_prepare<H: CoreHook>(hooks: &mut Vec<H>)
    ensures
        final(hooks)@.len() == old(hooks)@.len(),
        forall|i: int|
            0 <= i < old(hooks)@.len() ==> (#[trigger] final(hooks)@[i]).phases() == old(
                hooks,
            )@[i].phases().push(Phase::Prepare),
{
    let n = hooks.len();
    for i in 0..n
        invariant
            n == hooks@.len(),
            forall|k: int|
                0 <= k < i ==> (#[trigger] hooks@[k]).phases() == old(hooks)@[k].phases().push(
                    Phase::Prepare,
                ),
            forall|k: int| i <= k < n ==> #[trigger] hooks@[k] == old(hooks)@[k],
    {
        let ghost pre = hooks@;
        let h = &mut hooks[i];
        h.prepare();
        proof {
            assert(forall|k: int| 0 <= k < n && k != i as int ==> hooks@[k] == pre[k]);
        }
    }
}

/// Runs every hook's tick phase, in registration order: each hook's phase
/// record grows by exactly one `Tick` carrying the frame's delta.
pub fn run_tick<H: CoreHook>(hooks: &mut Vec<H>, frame_info: &FrameInfo)
    ensures
        final(hooks)@.len() == old(hooks)@.len(),
        forall|i: int|
            0 <= i < old(hooks)@.len() ==> (#[trigger] final(hooks)@[i]).phases() == old(
                hooks,
            )@[i].phases().push(Phase::Tick(frame_info.delta)),
{
    let n = hooks.len();
    for i in 0..n
        invariant
            n == hooks@.len(),
            forall|k: int|
                0 <= k < i ==> (#[trigger] hooks@[k]).phases() == old(hooks)@[k].phases().push(
                    Phase::Tick(frame_info.delta),
                ),
            forall|k: int| i <= k < n ==> #[trigger] hooks@[k] == old(hooks)@[k],
    {
        let ghost pre = hooks@;
        let h = &mut hooks[i];
        h.tick(frame_info);
        proof {
            assert(forall|k: int| 0 <= k < n && k != i as int ==> hooks@[k] == pre[k]);
        }
    }
}

/// Runs every hook's finish phase, in registration order: each hook's
/// phase record grows by exactly one `Finish`.
pub fn run_finish<H: CoreHook>(hooks: &mut Vec<H>)
    ensures
        final(hooks)@.len() == old(hooks)@.len(),
        forall|i: int|
            0 <= i < old(hooks)@.len() ==> (#[trigger] final(hooks)@[i]).phases() == old(
                hooks,
            )@[i].phases().push(Phase::Finish),
{
    let n = hooks.len();
    for i in 0..n
        invariant
            n == hooks@.len(),
            forall|k: int|
                0 <= k < i ==> (#[trigger] hooks@[k]).phases() == old(hooks)@[k].phases().push(
                    Phase::Finish,
                ),
            forall|k: int| i <= k < n ==> #[trigger] hooks@[k] == old(hooks)@[k],
    {
        let ghost pre = hooks@;
        let h = &mut hooks[i];
        h.finish();
        proof {
            assert(forall|k: int| 0 <= k < n && k != i as int ==> hooks@[k] == pre[k]);
        }
    }
}

/// Executes every handed-over callable exactly once, most recently handed
/// over first, leaving the hand-over set empty. One callable's failure
/// never stops the rest: its error is collected, and every other callable
/// still runs.
///
/// Returns the executed callables in execution order — the `k`-th executed
/// value is the `k`-th-from-last handed-over one, its run record grown by
/// exactly this frame's delta — together with the errors the failing runs
/// reported, in that same order.
pub fn run_deferred<C: MainLoopTask>(tasks: &mut Vec<C>, frame_info: &FrameInfo) -> (r: (
    Vec<C>,
    Vec<String>,
))
    ensures
        final(tasks)@.len() == 0,
        r.0@.len() == old(tasks)@.len(),
        forall|k: int|
            0 <= k < r.0@.len() ==> (#[trigger] r.0@[k]).runs() == old(tasks)@[old(
                tasks,
            )@.len() - 1 - k].runs().push(frame_info.delta),
        r.1@.len() <= r.0@.len(),
{
    let ghost n0 = old(tasks)@.len() as int;
    let mut executed: Vec<C> = Vec::new();
    let mut errors: Vec<String> = Vec::new();
    while tasks.len() > 0
        invariant
            n0 == old(tasks)@.len(),
            tasks@ == old(tasks)@.take(n0 - executed@.len()),
            executed@.len() <= n0,
            forall|k: int|
                0 <= k < executed@.len() ==> (#[trigger] executed@[k]).runs() == old(tasks)@[n0 - 1
                    - k].runs().push(frame_info.delta),
            errors@.len() <= executed@.len(),
        decreases tasks@.len(),
    {
        let ghost pre = tasks@;
        let ghost e = executed@.len() as int;
        let mut task = match tasks.pop() {
            Some(t) => t,
            None => vstd::pervasive::unreached(),
        };
        proof {
            assert(pre == old(tasks)@.take(n0 - e));
            assert(pre.len() == n0 - e);
            assert(pre.len() > 0);
            assert(task == pre[pre.len() - 1]);
            assert(pre[n0 - e - 1] == old(tasks)@[n0 - e - 1]);
            assert(task == old(tasks)@[n0 - 1 - e]);
            assert(tasks@ == pre.subrange(0, pre.len() - 1));
            assert(tasks@ =~= old(tasks)@.take(n0 - (e + 1)));
        }
        match task.run(frame_info) {
            Ok(()) => (),
            Err(e) => {
                errors.push(e);
            },
        }
        executed.push(task);
    }
    proof {
        assert(executed@.len() == n0) by {
            assert(tasks@.len() == 0);
            assert(old(tasks)@.take(n0 - executed@.len()).len() == 0);
        }
    }
    (executed, errors)
}

/// A hook that counts its phase invocations and remembers the last tick's
/// delta — the simplest per-frame hook, and its phase record is literally
/// the `phases()` log the frame loop's guarantees speak of.
pub struct PhaseRecorder {
    pub prepares: u64,
    pub ticks: u64,
    pub finishes: u64,
    pub last_delta: u64,
    pub log: Ghost<Seq<Phase>>,
}

impl PhaseRecorder {
    pub fn new() -> (r: PhaseRecorder)
        ensures
            r.prepares == 0,
            r.ticks == 0,
            r.finishes == 0,
            r.phases() == Seq::<Phase>::empty(),
    {
        PhaseRecorder { prepares: 0, ticks: 0, finishes: 0, last_delta: 0, log: Ghost(Seq::empty()) }
    }
}

impl CoreHook for PhaseRecorder {
    open spec fn phases(&self) -> Seq<Phase> {
        self.log@
    }

    fn prepare(&mut self) {
        if self.prepares < u64::MAX {
            self.prepares = self.prepares + 1;
        }
        self.log = Ghost(self.log@.push(Phase::Prepare));
    }

    fn tick(&mut self, frame_info: &FrameInfo) {
        if self.ticks < u64::MAX {
            self.ticks = self.ticks + 1;
        }
        self.last_delta = frame_info.delta;
        self.log = Ghost(self.log@.push(Phase::Tick(frame_info.delta)));
    }

    fn finish(&mut self) {
        if self.finishes < u64::MAX {
            self.finishes = self.finishes + 1;
        }
        self.log = Ghost(self.log@.push(Phase::Finish));
    }
}

/// A deferred callable that counts its runs and remembers the delta it was
/// last handed; set `fail` and every run reports an error, which is how a
/// host exercises the frame loop's failure path. Its run record is
/// literally the `runs()` log the frame loop's guarantees speak of.
#[derive(Clone, Copy)]
pub struct CountingTask {
    pub tag: u64,
    pub fail: bool,
    pub times_run: u64,
    pub last_delta: u64,
    pub log: Ghost<Seq<u64>>,
}

impl CountingTask {
    pub fn new(tag: u64) -> (r: CountingTask)
        ensures
            r.tag == tag,
            !r.fail,
            r.times_run == 0,
            r.runs() == Seq::<u64>::empty(),
    {
        CountingTask { tag, fail: false, times_run: 0, last_delta: 0, log: Ghost(Seq::empty()) }
    }

    pub fn failing(tag: u64) -> (r: CountingTask)
        ensures
            r.tag == tag,
            r.fail,
            r.times_run == 0,
            r.runs() == Seq::<u64>::empty(),
    {
        CountingTask { tag, fail: true, times_run: 0, last_delta: 0, log: Ghost(Seq::empty()) }
    }
}

impl MainLoopTask for CountingTask {
    open spec fn runs(&self) -> Seq<u64> {
        self.log@
    }

    fn run(&mut self, frame_info: &FrameInfo) -> (r: Result<(), String>) {
        if self.times_run < u64::MAX {
            self.times_run = self.times_run + 1;
        }
        self.last_delta = frame_info.delta;
        self.log = Ghost(self.log@.push(frame_info.delta));
        if self.fail {
            Err("this callable always fails".to_owned())
        } else {
            Ok(())
        }
    }
}

/// The host-side half of the scheduler: accumulates deferred callables and
/// hooks between ticks and hands each batch over at the tick boundary, so
/// cross-thread traffic stays at one message per kind per tick.
pub struct Core<C, H> {
    tasks: Option<Vec<C>>,
    hooks: Option<Vec<H>>,
}

impl<C, H> Core<C, H> {
    /// The callables accumulated for the next hand-over.
    pub closed spec fn scheduled(&self) -> Seq<C> {
        match self.tasks {
            Option::None => Seq::<C>::empty(),
            Option::Some(v) => v@,
        }
    }

    /// The hooks accumulated for the next hand-over.
    pub closed spec fn pending_hooks(&self) -> Seq<H> {
        match self.hooks {
            Option::None => Seq::<H>::empty(),
            Option::Some(v) => v@,
        }
    }

    pub fn new() -> (r: Core<C, H>)
        ensures
            r.scheduled() == Seq::<C>::empty(),
            r.pending_hooks() == Seq::<H>::empty(),
    {
        Core { tasks: None, hooks: None }
    }

    /// Queues a callable for the next hand-over to the frame thread.
    pub fn schedule_task(&mut self, task: C)
        ensures
            final(self).scheduled() == old(self).scheduled().push(task),
            final(self).pending_hooks() == old(self).pending_hooks(),
    {
        match &mut self.tasks {
            Option::None => {
                let mut v = Vec::new();
                v.push(task);
                self.tasks = Some(v);
            },
            Option::Some(v) => {
                v.push(task);
            },
        }
    }

    /// Queues a hook for the next hand-over to the frame thread.
    pub fn add_hook(&mut self, hook: H)
        ensures
            final(self).pending_hooks() == old(self).pending_hooks().push(hook),
            final(self).scheduled() == old(self).scheduled(),
    {
        match &mut self.hooks {
            Option::None => {
                let mut v = Vec::new();
                v.push(hook);
                self.hooks = Some(v);
            },
            Option::Some(v) => {
                v.push(hook);
            },
        }
    }

    /// Takes the accumulated callables as one batch to send, or nothing
    /// when nothing accumulated (so no message goes out at all).
    pub fn hand_over_tasks(&mut self) -> (r: Option<Vec<C>>)
        ensures
            final(self).scheduled() == Seq::<C>::empty(),
            final(self).pending_hooks() == old(self).pending_hooks(),
            match r {
                Some(v) => v@ == old(self).scheduled(),
                None => old(self).scheduled() == Seq::<C>::empty(),
            },
    {
        let r = self.tasks.take();
        r
    }

    /// Takes the accumulated hooks as one batch to send, or nothing when
    /// nothing accumulated.
    pub fn hand_over_hooks(&mut self) -> (r: Option<Vec<H>>)
        ensures
            final(self).pending_hooks() == Seq::<H>::empty(),
            final(self).scheduled() == old(self).scheduled(),
            match r {
                Some(v) => v@ == old(self).pending_hooks(),
                None => old(self).pending_hooks() == Seq::<H>::empty(),
            },
    {
        let r = self.hooks.take();
        r
    }
}

/// The descriptor of the core plugin: the frame scheduler itself, with no
/// dependencies, so it always loads first among the engine plugins.
pub struct CorePlugin {
    pub identity: u64,
}

impl CorePlugin {
    pub fn info(&self) -> (r: PluginInfo)
        ensures
            r.identity == self.identity,
            r.deps@ == Seq::<u64>::empty(),
            r.name@ == "Core"@,
    {
        PluginInfo::build(self.identity, "Core".to_owned())
    }
}

} // verus!
