//! A fixed-capacity page of task control blocks: the unit of contention
//! isolation in the paged registry, and the place where each task's
//! scheduling state machine is stepped.

use vstd::prelude::*;
use crate::{
    AbsSchedulerTimeInUsec, ChannelId, DelayFromNowInUsec, Event, ExtEventSeqno,
    PeriodLengthInUsec, Schedule, SenderChannelId, Task, TaskId, TaskState,
};
use crate::scheduler::prv::Private;

verus! {

/// Number of control-block slots in one page.
pub const PAGE_SIZE: usize = 1024;

/// The page and slot a task id maps to: `(id / PAGE_SIZE, id % PAGE_SIZE)`.
pub fn position(id: usize) -> (r: (usize, usize))
    ensures
        r.0 == id as int / PAGE_SIZE as int,
        r.1 == id as int % PAGE_SIZE as int,
        r.1 < PAGE_SIZE,
{
    (id / PAGE_SIZE, id % PAGE_SIZE)
}

/// `a + b`, stopping at the largest representable value.
pub open spec fn sat_add(a: usize, b: usize) -> usize {
    if a + b <= usize::MAX { (a + b) as usize } else { usize::MAX }
}

/// Executable saturating addition, exact against `sat_add`.
pub fn sat_add_usize(a: usize, b: usize) -> (r: usize)
    ensures
        r == sat_add(a, b),
{
    if a <= usize::MAX - b {
        a + b
    } else {
        usize::MAX
    }
}

/// The ghost image of one control-block slot: everything the scheduler
/// records about a task except the task value itself.
#[verifier::ext_equal]
pub ghost struct SlotModel {
    /// Whether a control block is installed here.
    pub installed: bool,
    /// Current state of the task's scheduling state machine.
    pub state: TaskState,
    /// The task runs only when `pending_wake` is set.
    pub conditional_exec: bool,
    /// Whether downstream consumers subscribe to the outputs here.
    pub has_dependents: bool,
    /// Set for time-periodic tasks.
    pub periodic: Option<PeriodLengthInUsec>,
    /// Next time a periodic task becomes eligible.
    pub next_deadline_us: usize,
    /// Last observed sequence number of each output channel.
    pub last_seqnos: Seq<usize>,
    /// Downstream tasks to wake when an output channel advances.
    pub dependents: Seq<(ChannelId, TaskId)>,
    /// Set by wakes; makes a conditional task eligible.
    pub pending_wake: bool,
}

/// The image of a slot no task was ever installed into.
pub open spec fn empty_slot() -> SlotModel {
    SlotModel {
        installed: false,
        state: TaskState::Execute,
        conditional_exec: false,
        has_dependents: false,
        periodic: None,
        next_deadline_us: 0,
        last_seqnos: Seq::empty(),
        dependents: Seq::empty(),
        pending_wake: false,
    }
}

/// Whether one `eval` step may run the task in this slot now.
pub open spec fn slot_eligible(s: SlotModel, now: usize) -> bool {
    &&& s.installed
    &&& !(s.state is Stop)
    &&& !(s.periodic is Some && now < s.next_deadline_us)
    &&& !(match s.state {
        TaskState::TimeWait(d) => now < d.0,
        _ => false,
    })
    &&& !(s.conditional_exec && !s.pending_wake)
}

/// The state a task enters after its `execute` returned `sched` at time
/// `now`: the `Event::User` transition of the state machine.
pub open spec fn next_state_spec(sched: Schedule, now: usize) -> TaskState {
    match sched {
        Schedule::Loop => TaskState::Execute,
        Schedule::OnMessage(ch, pos) => TaskState::MessageWaitNeedSenderId(ch, pos),
        Schedule::DelayUsec(d) => TaskState::TimeWait(
            AbsSchedulerTimeInUsec(sat_add(now, d.n_usec)),
        ),
        Schedule::OnExternalEvent => TaskState::ExtEventWait(ExtEventSeqno(0)),
        Schedule::Stop => TaskState::Stop,
    }
}

/// Which schedules consume the wake that made the task eligible.
pub open spec fn clears_pending(sched: Schedule) -> bool {
    sched is OnMessage || sched is OnExternalEvent
}

/// The slot after one `eval` step ran its task: `sched` is what the task
/// returned, `pre_seqs`/`post_seqs` the output sequence numbers observed
/// around the run.
pub open spec fn run_slot(
    pre: SlotModel,
    sched: Schedule,
    pre_seqs: Seq<usize>,
    post_seqs: Seq<usize>,
    now: usize,
) -> SlotModel {
    SlotModel {
        state: next_state_spec(sched, now),
        pending_wake: pre.pending_wake && !clears_pending(sched),
        next_deadline_us: match pre.periodic {
            Some(p) => sat_add(now, p.0),
            None => pre.next_deadline_us,
        },
        last_seqnos: Seq::new(
            pre.last_seqnos.len(),
            |i: int| if pre_seqs[i] != post_seqs[i] {
                post_seqs[i]
            } else {
                pre.last_seqnos[i]
            },
        ),
        ..pre
    }
}

/// How a slot may change under one `eval` step: untouched when not
/// eligible, else exactly a `run_slot` outcome for the schedule the task
/// returned and the sequence numbers observed.
pub open spec fn slot_step_ok(pre: SlotModel, post: SlotModel, now: usize) -> bool {
    if !slot_eligible(pre, now) {
        post == pre
    } else {
        exists|sched: Schedule, pre_seqs: Seq<usize>, post_seqs: Seq<usize>|
            pre_seqs.len() == pre.last_seqnos.len()
            && post_seqs.len() == pre.last_seqnos.len()
            && post == #[trigger] run_slot(pre, sched, pre_seqs, post_seqs, now)
    }
}

/// Every id in a wake batch is justified: it is a listed dependent of
/// this slot, on an output channel whose observed sequence number changed
/// across the run.
pub open spec fn wake_batch_ok(
    pre: SlotModel,
    pre_seqs: Seq<usize>,
    post_seqs: Seq<usize>,
    added: Seq<TaskId>,
) -> bool {
    forall|k: int|
        #![trigger added[k]]
        0 <= k < added.len() ==> exists|j: int|
            0 <= j < pre.dependents.len()
            && pre.has_dependents
            && (#[trigger] pre.dependents[j]).1 == added[k]
            && pre.dependents[j].0.sender_id.0 < pre_seqs.len()
            && pre_seqs[pre.dependents[j].0.sender_id.0 as int]
                != post_seqs[pre.dependents[j].0.sender_id.0 as int]
}

/// How one `eval` step changes a slot together with what it appends to
/// the wake batch: an ineligible slot is untouched and appends nothing;
/// an eligible one takes exactly a `run_slot` step, and every appended id
/// is a dependent on an output the same step observed advancing.
pub open spec fn slot_step_trig(
    pre: SlotModel,
    post: SlotModel,
    now: usize,
    added: Seq<TaskId>,
) -> bool {
    if !slot_eligible(pre, now) {
        post == pre && added.len() == 0
    } else {
        exists|sched: Schedule, pre_seqs: Seq<usize>, post_seqs: Seq<usize>|
            pre_seqs.len() == pre.last_seqnos.len()
            && post_seqs.len() == pre.last_seqnos.len()
            && post == #[trigger] run_slot(pre, sched, pre_seqs, post_seqs, now)
            && wake_batch_ok(pre, pre_seqs, post_seqs, added)
    }
}

/// One wake-batch entry `d`, justified by the step a slot took: the slot
/// was eligible, `d` is one of its listed dependents, and the step that
/// produced `post` observed that dependent's channel advance.
pub open spec fn wake_from_slot(pre: SlotModel, post: SlotModel, d: TaskId, now: usize) -> bool {
    &&& slot_eligible(pre, now)
    &&& pre.has_dependents
    &&& exists|sched: Schedule, pre_seqs: Seq<usize>, post_seqs: Seq<usize>, j: int|
        #![trigger run_slot(pre, sched, pre_seqs, post_seqs, now), pre.dependents[j]]
        pre_seqs.len() == pre.last_seqnos.len()
        && post_seqs.len() == pre.last_seqnos.len()
        && post == run_slot(pre, sched, pre_seqs, post_seqs, now)
        && 0 <= j < pre.dependents.len()
        && pre.dependents[j].1 == d
        && pre.dependents[j].0.sender_id.0 < pre_seqs.len()
        && pre_seqs[pre.dependents[j].0.sender_id.0 as int]
            != post_seqs[pre.dependents[j].0.sender_id.0 as int]
}

/// Entries `lo..` of a wake batch are each justified by some slot in
/// `0..=hi` of the page: the batch holds only dependents of slots whose
/// step observed an output advance.
pub open spec fn batch_justified(
    pre_page: Seq<SlotModel>,
    post_page: Seq<SlotModel>,
    batch: Seq<TaskId>,
    lo: int,
    hi: int,
    now: usize,
) -> bool {
    forall|k: int|
        #![trigger batch[k]]
        lo <= k < batch.len() ==> exists|s: int|
            #![trigger pre_page[s]]
            0 <= s <= hi && wake_from_slot(pre_page[s], post_page[s], batch[k], now)
}

/// A step justifies each entry of its wake batch.
pub proof fn lemma_trig_entry(
    pre: SlotModel,
    post: SlotModel,
    now: usize,
    added: Seq<TaskId>,
    k: int,
)
    requires
        slot_step_trig(pre, post, now, added),
        0 <= k < added.len(),
    ensures
        wake_from_slot(pre, post, added[k], now),
{
    let (sched, pre_seqs, post_seqs) = choose|sched: Schedule, pre_seqs: Seq<usize>, post_seqs: Seq<usize>|
        pre_seqs.len() == pre.last_seqnos.len()
        && post_seqs.len() == pre.last_seqnos.len()
        && post == #[trigger] run_slot(pre, sched, pre_seqs, post_seqs, now)
        && wake_batch_ok(pre, pre_seqs, post_seqs, added);
    let j = choose|j: int|
        0 <= j < pre.dependents.len()
        && pre.has_dependents
        && (#[trigger] pre.dependents[j]).1 == added[k]
        && pre.dependents[j].0.sender_id.0 < pre_seqs.len()
        && pre_seqs[pre.dependents[j].0.sender_id.0 as int]
            != post_seqs[pre.dependents[j].0.sender_id.0 as int];
    assert(post == run_slot(pre, sched, pre_seqs, post_seqs, now)
        && 0 <= j < pre.dependents.len()
        && pre.dependents[j].1 == added[k]
        && pre.dependents[j].0.sender_id.0 < pre_seqs.len()
        && pre_seqs[pre.dependents[j].0.sender_id.0 as int]
            != post_seqs[pre.dependents[j].0.sender_id.0 as int]);
}

/// The executable `Event::User` transition; wake events make the task
/// executable again.
pub fn state_after_event(ev: Event, now: usize) -> (r: TaskState)
    ensures
        match ev {
            Event::User(sched) => r == next_state_spec(sched, now),
            _ => r == TaskState::Execute,
        },
{
    match ev {
        Event::User(sched) => match sched {
            Schedule::Loop => TaskState::Execute,
            Schedule::OnMessage(ch, pos) => TaskState::MessageWaitNeedSenderId(ch, pos),
            Schedule::DelayUsec(d) => TaskState::TimeWait(
                AbsSchedulerTimeInUsec(sat_add_usize(now, d.n_usec)),
            ),
            Schedule::OnExternalEvent => TaskState::ExtEventWait(ExtEventSeqno(0)),
            Schedule::Stop => TaskState::Stop,
        },
        _ => TaskState::Execute,
    }
}

/// One control-block slot: the task handle plus its scheduling record.
pub struct TaskSlot<T> {
    pub task: Option<T>,
    pub state: TaskState,
    pub conditional_exec: bool,
    pub has_dependents: bool,
    pub periodic: Option<PeriodLengthInUsec>,
    pub next_deadline_us: usize,
    pub last_seqnos: Vec<usize>,
    pub dependents: Vec<(ChannelId, TaskId)>,
    pub pending_wake: bool,
}

impl<T> View for TaskSlot<T> {
    type V = SlotModel;

    open spec fn view(&self) -> SlotModel {
        SlotModel {
            installed: self.task is Some,
            state: self.state,
            conditional_exec: self.conditional_exec,
            has_dependents: self.has_dependents,
            periodic: self.periodic,
            next_deadline_us: self.next_deadline_us,
            last_seqnos: self.last_seqnos@,
            dependents: self.dependents@,
            pending_wake: self.pending_wake,
        }
    }
}

impl<T: Task> TaskSlot<T> {
    /// A slot with nothing installed.
    pub fn empty() -> (r: TaskSlot<T>)
        ensures
            r@ == empty_slot(),
    {
        let r = TaskSlot {
            task: None,
            state: TaskState::Execute,
            conditional_exec: false,
            has_dependents: false,
            periodic: None,
            next_deadline_us: 0,
            last_seqnos: Vec::new(),
            dependents: Vec::new(),
            pending_wake: false,
        };
        proof {
            assert(r@ =~~= empty_slot());
        }
        r
    }

    /// Install a control block; the last observed sequence numbers start
    /// from a snapshot of the task's current output channels.
    pub fn install(&mut self, task: T)
        requires
            !old(self)@.installed,
        ensures
            final(self)@.installed,
            final(self)@.state == TaskState::Execute,
            final(self)@.last_seqnos.len() == task.output_count_spec(),
            final(self)@ == (SlotModel {
                installed: true,
                state: TaskState::Execute,
                last_seqnos: final(self)@.last_seqnos,
                ..old(self)@
            }),
    {
        let n = task.output_count();
        let mut seqs: Vec<usize> = Vec::new();
        let mut i: usize = 0;
        while i < n
            invariant
                i <= n,
                seqs@.len() == i,
            decreases n - i,
        {
            seqs.push(task.output_seqno(SenderChannelId(i)));
            i += 1;
        }
        self.last_seqnos = seqs;
        self.state = TaskState::Execute;
        self.task = Some(task);
    }

    /// Mark the task as runnable only on an external wake.
    pub fn set_conditional_exec_flag(&mut self)
        ensures
            final(self)@ == (SlotModel { conditional_exec: true, ..old(self)@ }),
    {
        self.conditional_exec = true;
    }

    /// Mark the task as time-periodic with the given period.
    pub fn set_delayed_exec(&mut self, period: PeriodLengthInUsec)
        ensures
            final(self)@ == (SlotModel { periodic: Some(period), ..old(self)@ }),
    {
        self.periodic = Some(period);
    }

    /// Record that downstream consumers subscribe to the outputs here.
    pub fn set_dependents_flag(&mut self)
        ensures
            final(self)@ == (SlotModel { has_dependents: true, ..old(self)@ }),
    {
        self.has_dependents = true;
    }

    /// Append wake edges: when output channel `ch` advances, task `id`
    /// is to be woken.
    pub fn append_dependents(&mut self, deps: &Vec<(ChannelId, TaskId)>)
        ensures
            final(self)@ == (SlotModel {
                dependents: old(self)@.dependents + deps@,
                ..old(self)@
            }),
    {
        let mut k: usize = 0;
        while k < deps.len()
            invariant
                k <= deps@.len(),
                self@ == (SlotModel {
                    dependents: old(self)@.dependents + deps@.take(k as int),
                    ..old(self)@
                }),
            decreases deps@.len() - k,
        {
            let e = deps[k];
            self.dependents.push(e);
            k += 1;
            proof {
                assert(old(self)@.dependents + deps@.take(k as int)
                    =~= old(self)@.dependents + deps@.take(k - 1) + seq![deps@[k - 1]]);
            }
        }
        proof {
            assert(deps@.take(deps@.len() as int) =~= deps@);
        }
    }

    /// Set the pending wake flag: the wake operation.
    pub fn wake(&mut self)
        ensures
            final(self)@ == (SlotModel { pending_wake: true, ..old(self)@ }),
    {
        self.pending_wake = true;
    }

    /// One `eval` step for this slot: check eligibility, snapshot output
    /// sequence numbers, run the task, record advances, collect wakes for
    /// downstream dependents, and apply the returned schedule.
    pub fn eval_slot(&mut self, now: usize, to_trigger: &mut Vec<TaskId>, seqno_buf: &mut Vec<usize>)
        ensures
            slot_step_ok(old(self)@, final(self)@, now),
            slot_step_trig(
                old(self)@,
                final(self)@,
                now,
                final(to_trigger)@.skip(old(to_trigger)@.len() as int),
            ),
            final(to_trigger)@.len() >= old(to_trigger)@.len(),
            forall|k: int|
                0 <= k < old(to_trigger)@.len() ==> final(to_trigger)@[k] == old(to_trigger)@[k],
            forall|j: int|
                0 <= j < old(self)@.dependents.len()
                && old(self)@.has_dependents
                && old(self)@.dependents[j].0.sender_id.0 < old(self)@.last_seqnos.len()
                && final(self)@.last_seqnos[old(self)@.dependents[j].0.sender_id.0 as int]
                    != old(self)@.last_seqnos[old(self)@.dependents[j].0.sender_id.0 as int]
                ==> final(to_trigger)@.contains(#[trigger] old(self)@.dependents[j].1),
    {
        // Eligibility, in the sweep's order of checks.
        if self.task.is_none() {
            return;
        }
        match self.state {
            TaskState::Stop => {
                return;
            },
            TaskState::TimeWait(d) => {
                if now < d.0 {
                    return;
                }
            },
            _ => {},
        }
        if self.periodic.is_some() && now < self.next_deadline_us {
            return;
        }
        if self.conditional_exec && !self.pending_wake {
            return;
        }
        proof {
            assert(slot_eligible(old(self)@, now));
        }

        // Snapshot the output sequence numbers before running the task.
        let n = self.last_seqnos.len();
        seqno_buf.clear();
        let mut i: usize = 0;
        while i < n
            invariant
                i <= n,
                seqno_buf@.len() == i,
                self == old(self),
                n == self.last_seqnos@.len(),
                slot_eligible(old(self)@, now),
            decreases n - i,
        {
            let cur: usize = match self.task.as_ref() {
                Some(t) => t.output_seqno(SenderChannelId(i)),
                None => unreached(),
            };
            seqno_buf.push(cur);
            i += 1;
        }
        let ghost pre_seqs = seqno_buf@;

        // Run the task.
        proof {
            assert(self.task is Some);
        }
        let sched: Schedule = match self.task.as_mut() {
            Some(t) => t.execute(),
            None => unreached(),
        };
        proof {
            assert(self@ == (SlotModel { ..old(self)@ }));
        }

        // Snapshot again and record each advanced output channel.
        let mut post_seqs: Vec<usize> = Vec::new();
        i = 0;
        while i < n
            invariant
                i <= n,
                post_seqs@.len() == i,
                self@ == old(self)@,
                n == self.last_seqnos@.len(),
                slot_eligible(old(self)@, now),
            decreases n - i,
        {
            let cur: usize = match self.task.as_ref() {
                Some(t) => t.output_seqno(SenderChannelId(i)),
                None => unreached(),
            };
            post_seqs.push(cur);
            i += 1;
        }
        i = 0;
        while i < n
            invariant
                i <= n,
                n == self.last_seqnos@.len(),
                n == pre_seqs.len(),
                n == post_seqs@.len(),
                seqno_buf@ == pre_seqs,
                self@ == (SlotModel { last_seqnos: self@.last_seqnos, ..old(self)@ }),
                forall|k: int| 0 <= k < i ==> self@.last_seqnos[k]
                    == (if pre_seqs[k] != post_seqs@[k] { post_seqs@[k] } else { old(self)@.last_seqnos[k] }),
                forall|k: int| i <= k < n ==> self@.last_seqnos[k] == old(self)@.last_seqnos[k],
            decreases n - i,
        {
            if seqno_buf[i] != post_seqs[i] {
                self.last_seqnos[i] = post_seqs[i];
            }
            i += 1;
        }

        // Collect downstream wakes for every advanced channel.
        if self.has_dependents {
            let mut k: usize = 0;
            while k < self.dependents.len()
                invariant
                    k <= self.dependents@.len(),
                    n == pre_seqs.len(),
                    n == post_seqs@.len(),
                    seqno_buf@ == pre_seqs,
                    self@ == (SlotModel { last_seqnos: self@.last_seqnos, ..old(self)@ }),
                    self@.dependents == old(self)@.dependents,
                    to_trigger@.len() >= old(to_trigger)@.len(),
                    forall|m: int|
                        0 <= m < old(to_trigger)@.len() ==> to_trigger@[m] == old(to_trigger)@[m],
                    wake_batch_ok(
                        old(self)@,
                        pre_seqs,
                        post_seqs@,
                        to_trigger@.skip(old(to_trigger)@.len() as int),
                    ),
                    old(self)@.has_dependents,
                    forall|j: int|
                        0 <= j < k
                        && old(self)@.dependents[j].0.sender_id.0 < n
                        && pre_seqs[old(self)@.dependents[j].0.sender_id.0 as int]
                            != post_seqs@[old(self)@.dependents[j].0.sender_id.0 as int]
                        ==> to_trigger@.contains(#[trigger] old(self)@.dependents[j].1),
                decreases self.dependents@.len() - k,
            {
                let e: (ChannelId, TaskId) = self.dependents[k];
                let idx = e.0.sender_id.0;
                if idx < n && seqno_buf[idx] != post_seqs[idx] {
                    let ghost before = to_trigger@;
                    to_trigger.push(e.1);
                    proof {
                        let ghost tb = old(to_trigger)@.len() as int;
                        let added_pre = before.skip(tb);
                        let added_now = to_trigger@.skip(tb);
                        assert(added_now =~= added_pre.push(e.1));
                        assert forall|k2: int| #![trigger added_now[k2]]
                            0 <= k2 < added_now.len() implies exists|j: int|
                            #![trigger old(self)@.dependents[j]]
                            0 <= j < old(self)@.dependents.len()
                            && old(self)@.has_dependents
                            && old(self)@.dependents[j].1 == added_now[k2]
                            && old(self)@.dependents[j].0.sender_id.0 < pre_seqs.len()
                            && pre_seqs[old(self)@.dependents[j].0.sender_id.0 as int]
                                != post_seqs@[old(self)@.dependents[j].0.sender_id.0 as int] by {
                            if k2 < added_pre.len() {
                                assert(added_now[k2] == added_pre[k2]);
                                let j = choose|j: int|
                                    #![trigger old(self)@.dependents[j]]
                                    0 <= j < old(self)@.dependents.len()
                                    && old(self)@.has_dependents
                                    && old(self)@.dependents[j].1 == added_pre[k2]
                                    && old(self)@.dependents[j].0.sender_id.0 < pre_seqs.len()
                                    && pre_seqs[old(self)@.dependents[j].0.sender_id.0 as int]
                                        != post_seqs@[old(self)@.dependents[j].0.sender_id.0 as int];
                                assert(old(self)@.dependents[j].1 == added_now[k2]);
                            } else {
                                assert(added_now[k2] == e.1);
                                assert(old(self)@.dependents[k as int].1 == e.1);
                                assert(old(self)@.dependents[k as int].0.sender_id.0 < pre_seqs.len());
                            }
                        }
                        assert forall|j: int|
                            0 <= j < k
                            && old(self)@.dependents[j].0.sender_id.0 < n
                            && pre_seqs[old(self)@.dependents[j].0.sender_id.0 as int]
                                != post_seqs@[old(self)@.dependents[j].0.sender_id.0 as int]
                            implies to_trigger@.contains(#[trigger] old(self)@.dependents[j].1) by {
                            let d = old(self)@.dependents[j].1;
                            let m = choose|m: int| 0 <= m < before.len() && before[m] == d;
                            assert(to_trigger@[m] == d);
                        }
                        assert(to_trigger@.contains(old(self)@.dependents[k as int].1)) by {
                            assert(to_trigger@[to_trigger@.len() - 1] == e.1);
                        }
                    }
                }
                k += 1;
            }
        }

        // Apply the schedule the task returned.
        match sched {
            Schedule::Loop => {
                self.state = TaskState::Execute;
            },
            Schedule::OnMessage(ch, pos) => {
                self.state = TaskState::MessageWaitNeedSenderId(ch, pos);
                self.pending_wake = false;
            },
            Schedule::DelayUsec(d) => {
                self.state = TaskState::TimeWait(
                    AbsSchedulerTimeInUsec(sat_add_usize(now, d.n_usec)),
                );
            },
            Schedule::OnExternalEvent => {
                self.state = TaskState::ExtEventWait(ExtEventSeqno(0));
                self.pending_wake = false;
            },
            Schedule::Stop => {
                self.state = TaskState::Stop;
            },
        }
        match self.periodic {
            Some(p) => {
                self.next_deadline_us = sat_add_usize(now, p.0);
            },
            None => {},
        }

        proof {
            let pre = old(self)@;
            let post = run_slot(pre, sched, pre_seqs, post_seqs@, now);
            assert(self@.last_seqnos =~= post.last_seqnos);
            assert(self@ =~~= post);
            assert(slot_step_ok(pre, self@, now));
            let added = to_trigger@.skip(old(to_trigger)@.len() as int);
            if !pre.has_dependents {
                assert(added =~= Seq::<TaskId>::empty());
                assert(wake_batch_ok(pre, pre_seqs, post_seqs@, added));
            }
            assert(slot_step_trig(pre, self@, now, added));
        }
    }
}

/// A fixed-capacity bucket of control-block slots.
pub struct TaskPage<T> {
    pub slots: Vec<TaskSlot<T>>,
}

impl<T> View for TaskPage<T> {
    type V = Seq<SlotModel>;

    open spec fn view(&self) -> Seq<SlotModel> {
        self.slots@.map_values(|s: TaskSlot<T>| s@)
    }
}

impl<T: Task> TaskPage<T> {
    /// A page is well formed when it holds exactly `PAGE_SIZE` slots.
    pub open spec fn wf(&self) -> bool {
        self@.len() == PAGE_SIZE
    }

    /// A fresh page of empty slots.
    pub fn new() -> (r: TaskPage<T>)
        ensures
            r.wf(),
            forall|s: int| 0 <= s < PAGE_SIZE ==> r@[s] == empty_slot(),
    {
        let mut slots: Vec<TaskSlot<T>> = Vec::new();
        let mut i: usize = 0;
        while i < PAGE_SIZE
            invariant
                i <= PAGE_SIZE,
                slots@.len() == i,
                forall|s: int| 0 <= s < i ==> slots@[s]@ == empty_slot(),
            decreases PAGE_SIZE - i,
        {
            slots.push(TaskSlot::empty());
            i += 1;
        }
        TaskPage { slots }
    }

    /// Install a control block into an empty slot.
    pub fn store(&mut self, l2: usize, task: T)
        requires
            old(self).wf(),
            l2 < PAGE_SIZE,
            !old(self)@[l2 as int].installed,
        ensures
            final(self).wf(),
            forall|s: int| 0 <= s < PAGE_SIZE && s != l2 ==> final(self)@[s] == old(self)@[s],
            final(self)@[l2 as int].last_seqnos.len() == task.output_count_spec(),
            final(self)@[l2 as int] == (SlotModel {
                installed: true,
                state: TaskState::Execute,
                last_seqnos: final(self)@[l2 as int].last_seqnos,
                ..old(self)@[l2 as int]
            }),
    {
        self.slots[l2].install(task);
    }

    /// Register that the task in `l2` runs only on an external wake.
    pub fn set_conditional_exec_flag(&mut self, l2: usize)
        requires
            old(self).wf(),
            l2 < PAGE_SIZE,
        ensures
            final(self).wf(),
            forall|s: int| 0 <= s < PAGE_SIZE && s != l2 ==> final(self)@[s] == old(self)@[s],
            final(self)@[l2 as int] == (SlotModel {
                conditional_exec: true,
                ..old(self)@[l2 as int]
            }),
    {
        self.slots[l2].set_conditional_exec_flag();
    }

    /// Register the task in `l2` as time-periodic.
    pub fn set_delayed_exec(&mut self, l2: usize, period: PeriodLengthInUsec)
        requires
            old(self).wf(),
            l2 < PAGE_SIZE,
        ensures
            final(self).wf(),
            forall|s: int| 0 <= s < PAGE_SIZE && s != l2 ==> final(self)@[s] == old(self)@[s],
            final(self)@[l2 as int] == (SlotModel {
                periodic: Some(period),
                ..old(self)@[l2 as int]
            }),
    {
        self.slots[l2].set_delayed_exec(period);
    }

    /// Record that downstream tasks subscribe to outputs of the task in `l2`.
    pub fn set_dependents_flag(&mut self, l2: usize)
        requires
            old(self).wf(),
            l2 < PAGE_SIZE,
        ensures
            final(self).wf(),
            forall|s: int| 0 <= s < PAGE_SIZE && s != l2 ==> final(self)@[s] == old(self)@[s],
            final(self)@[l2 as int] == (SlotModel {
                has_dependents: true,
                ..old(self)@[l2 as int]
            }),
    {
        self.slots[l2].set_dependents_flag();
    }

    /// Append wake edges to the dependent list of the task in `l2`.
    pub fn register_dependents(&mut self, l2: usize, deps: &Vec<(ChannelId, TaskId)>)
        requires
            old(self).wf(),
            l2 < PAGE_SIZE,
        ensures
            final(self).wf(),
            forall|s: int| 0 <= s < PAGE_SIZE && s != l2 ==> final(self)@[s] == old(self)@[s],
            final(self)@[l2 as int] == (SlotModel {
                dependents: old(self)@[l2 as int].dependents + deps@,
                ..old(self)@[l2 as int]
            }),
    {
        self.slots[l2].append_dependents(deps);
    }

    /// Set the pending wake flag of the task in `l2`.
    pub fn schedule_exec(&mut self, l2: usize)
        requires
            old(self).wf(),
            l2 < PAGE_SIZE,
        ensures
            final(self).wf(),
            forall|s: int| 0 <= s < PAGE_SIZE && s != l2 ==> final(self)@[s] == old(self)@[s],
            final(self)@[l2 as int] == (SlotModel {
                pending_wake: true,
                ..old(self)@[l2 as int]
            }),
    {
        self.slots[l2].wake();
    }


    /// Mark the task in `l2` as having dependents and append wake edges
    /// in one page-local step.
    pub fn add_dependents(&mut self, l2: usize, deps: &Vec<(ChannelId, TaskId)>)
        requires
            old(self).wf(),
            l2 < PAGE_SIZE,
        ensures
            final(self).wf(),
            forall|s: int| 0 <= s < PAGE_SIZE && s != l2 ==> final(self)@[s] == old(self)@[s],
            final(self)@[l2 as int] == (SlotModel {
                has_dependents: true,
                dependents: old(self)@[l2 as int].dependents + deps@,
                ..old(self)@[l2 as int]
            }),
    {
        self.slots[l2].set_dependents_flag();
        self.slots[l2].append_dependents(deps);
    }

    /// Sweep slots `0..=l2_max_idx` of this page, stepping each task's
    /// state machine once and collecting downstream wakes into `private`.
    pub fn eval(&mut self, l2_max_idx: usize, _worker_id: usize, private: &mut Private, time_us: usize)
        requires
            old(self).wf(),
            l2_max_idx < PAGE_SIZE,
        ensures
            final(self).wf(),
            forall|s: int|
                l2_max_idx < s < PAGE_SIZE ==> final(self)@[s] == old(self)@[s],
            forall|s: int|
                0 <= s <= l2_max_idx ==> slot_step_ok(#[trigger] old(self)@[s], final(self)@[s], time_us),
            final(private).to_trigger@.len() >= old(private).to_trigger@.len(),
            forall|k: int|
                0 <= k < old(private).to_trigger@.len()
                ==> final(private).to_trigger@[k] == old(private).to_trigger@[k],
            batch_justified(
                old(self)@,
                final(self)@,
                final(private).to_trigger@,
                old(private).to_trigger@.len() as int,
                l2_max_idx as int,
                time_us,
            ),
            forall|s: int, j: int|
                0 <= s <= l2_max_idx
                && 0 <= j < old(self)@[s].dependents.len()
                && old(self)@[s].has_dependents
                && old(self)@[s].dependents[j].0.sender_id.0 < old(self)@[s].last_seqnos.len()
                && final(self)@[s].last_seqnos[old(self)@[s].dependents[j].0.sender_id.0 as int]
                    != old(self)@[s].last_seqnos[old(self)@[s].dependents[j].0.sender_id.0 as int]
                ==> final(private).to_trigger@.contains(#[trigger] old(self)@[s].dependents[j].1),
    {
        let mut s: usize = 0;
        while s <= l2_max_idx
            invariant
                s <= l2_max_idx + 1,
                l2_max_idx < PAGE_SIZE,
                self.wf(),
                old(self).wf(),
                forall|t: int| s <= t < PAGE_SIZE ==> self@[t] == old(self)@[t],
                forall|t: int| 0 <= t < s ==> slot_step_ok(#[trigger] old(self)@[t], self@[t], time_us),
                private.to_trigger@.len() >= old(private).to_trigger@.len(),
                forall|k: int|
                    0 <= k < old(private).to_trigger@.len()
                    ==> private.to_trigger@[k] == old(private).to_trigger@[k],
                batch_justified(
                    old(self)@,
                    self@,
                    private.to_trigger@,
                    old(private).to_trigger@.len() as int,
                    s - 1,
                    time_us,
                ),
                forall|t: int, j: int|
                    0 <= t < s
                    && 0 <= j < old(self)@[t].dependents.len()
                    && old(self)@[t].has_dependents
                    && old(self)@[t].dependents[j].0.sender_id.0 < old(self)@[t].last_seqnos.len()
                    && self@[t].last_seqnos[old(self)@[t].dependents[j].0.sender_id.0 as int]
                        != old(self)@[t].last_seqnos[old(self)@[t].dependents[j].0.sender_id.0 as int]
                    ==> private.to_trigger@.contains(#[trigger] old(self)@[t].dependents[j].1),
            decreases l2_max_idx + 1 - s,
        {
            let ghost pre_trigger = private.to_trigger@;
            let ghost pre_self = self@;
            let ghost pre_slots = self.slots@;
            self.slots[s].eval_slot(time_us, &mut private.to_trigger, &mut private.seqno_buf);
            proof {
                assert(self.slots@ == pre_slots.update(s as int, self.slots@[s as int]));
                assert forall|t: int| 0 <= t < PAGE_SIZE && t != s implies self@[t] == pre_self[t] by {
                    assert(self.slots@[t] == pre_slots[t]);
                    assert(self@[t] == self.slots@[t]@);
                    assert(pre_self[t] == pre_slots[t]@);
                }
                assert(self@[s as int] == self.slots@[s as int]@);
                assert(pre_self[s as int] == old(self)@[s as int]);
                assert(slot_step_ok(old(self)@[s as int], self@[s as int], time_us));
                let added = private.to_trigger@.skip(pre_trigger.len() as int);
                assert(slot_step_trig(old(self)@[s as int], self@[s as int], time_us, added));
                assert(batch_justified(
                    old(self)@,
                    self@,
                    private.to_trigger@,
                    old(private).to_trigger@.len() as int,
                    s as int,
                    time_us,
                )) by {
                    assert forall|k: int|
                        old(private).to_trigger@.len() <= k < private.to_trigger@.len()
                            implies exists|t: int|
                            0 <= t <= s && wake_from_slot(
                                #[trigger] old(self)@[t],
                                self@[t],
                                #[trigger] private.to_trigger@[k],
                                time_us,
                            ) by {
                        if k < pre_trigger.len() {
                            let t = choose|t: int|
                                0 <= t <= s - 1 && wake_from_slot(
                                    #[trigger] old(self)@[t],
                                    pre_self[t],
                                    #[trigger] pre_trigger[k],
                                    time_us,
                                );
                            assert(self@[t] == pre_self[t]);
                            assert(private.to_trigger@[k] == pre_trigger[k]);
                            assert(wake_from_slot(old(self)@[t], self@[t], private.to_trigger@[k], time_us));
                        } else {
                            lemma_trig_entry(
                                old(self)@[s as int],
                                self@[s as int],
                                time_us,
                                added,
                                k - pre_trigger.len(),
                            );
                            assert(added[k - pre_trigger.len()] == private.to_trigger@[k]);
                            assert(wake_from_slot(old(self)@[s as int], self@[s as int], private.to_trigger@[k], time_us));
                        }
                    }
                }
                assert forall|t: int, j: int|
                    0 <= t < s + 1
                    && 0 <= j < old(self)@[t].dependents.len()
                    && old(self)@[t].has_dependents
                    && old(self)@[t].dependents[j].0.sender_id.0 < old(self)@[t].last_seqnos.len()
                    && self@[t].last_seqnos[old(self)@[t].dependents[j].0.sender_id.0 as int]
                        != old(self)@[t].last_seqnos[old(self)@[t].dependents[j].0.sender_id.0 as int]
                    implies private.to_trigger@.contains(#[trigger] old(self)@[t].dependents[j].1) by {
                    let d = old(self)@[t].dependents[j].1;
                    if t < s {
                        let m = choose|m: int| 0 <= m < pre_trigger.len() && pre_trigger[m] == d;
                        assert(private.to_trigger@[m] == d);
                    }
                }
            }
            s += 1;
        }
        proof {
            assert(s - 1 == l2_max_idx);
        }
    }
}

/// If a slot's observed output sequence numbers never decrease — the
/// lossy channel's guarantee — one `eval` step never decreases the
/// recorded number of any output channel.
pub proof fn lemma_recorded_seqno_monotone(
    pre: SlotModel,
    sched: Schedule,
    pre_seqs: Seq<usize>,
    post_seqs: Seq<usize>,
    now: usize,
    i: int,
)
    requires
        pre_seqs.len() == pre.last_seqnos.len(),
        post_seqs.len() == pre.last_seqnos.len(),
        0 <= i < pre.last_seqnos.len(),
        pre.last_seqnos[i] <= pre_seqs[i],
        pre_seqs[i] <= post_seqs[i],
    ensures
        run_slot(pre, sched, pre_seqs, post_seqs, now).last_seqnos[i] >= pre.last_seqnos[i],
{
}

} // verus!
