//! The scheduler's shared state: the paged task registry, the name and
//! dependency-resolution tables, the stop flag and the shared clock.

use vstd::prelude::*;
use vstd::arithmetic::div_mod::{
    lemma_div_is_ordered, lemma_fundamental_div_mod, lemma_fundamental_div_mod_converse,
};
use crate::{ChannelId, Error, PeriodLengthInUsec, ReceiverChannelId, SchedulingRule, Task, TaskId, TaskState};
use crate::scheduler::page::{
    empty_slot, position, slot_step_ok, PAGE_SIZE, SlotModel, TaskPage,
};
use crate::scheduler::prv::Private;

verus! {

/// Page index of a task id.
pub open spec fn page_of(t: int) -> int {
    t / (PAGE_SIZE as int)
}

/// Slot index of a task id within its page.
pub open spec fn slot_of(t: int) -> int {
    t % (PAGE_SIZE as int)
}

/// Page and slot indices of consecutive ids: crossing a page boundary
/// advances the page index by exactly one.
pub proof fn lemma_page_step(id: int)
    requires
        id >= 1,
    ensures
        slot_of(id) == 0 ==> page_of(id) == page_of(id - 1) + 1,
        slot_of(id) != 0 ==> page_of(id) == page_of(id - 1),
        page_of(id) * (PAGE_SIZE as int) + slot_of(id) == id,
{
    lemma_fundamental_div_mod(id - 1, PAGE_SIZE as int);
    lemma_fundamental_div_mod(id, PAGE_SIZE as int);
    let q = page_of(id - 1);
    let r = slot_of(id - 1);
    if r + 1 < PAGE_SIZE {
        lemma_fundamental_div_mod_converse(id, PAGE_SIZE as int, q, r + 1);
    } else {
        lemma_fundamental_div_mod_converse(id, PAGE_SIZE as int, q + 1, 0);
    }
}

/// The name table as a map from names to task ids.
pub open spec fn ids_map(s: Seq<(String, TaskId)>) -> Map<Seq<char>, TaskId>
    decreases s.len(),
{
    if s.len() == 0 {
        Map::empty()
    } else {
        ids_map(s.drop_last()).insert(s.last().0@, s.last().1)
    }
}

/// Membership and values of the name-table map, in terms of the entries.
pub proof fn lemma_ids_map_index(s: Seq<(String, TaskId)>, k: Seq<char>)
    ensures
        ids_map(s).contains_key(k) <==> exists|i: int| 0 <= i < s.len() && (#[trigger] s[i]).0@ == k,
        ids_map(s).contains_key(k) ==> exists|i: int|
            0 <= i < s.len() && (#[trigger] s[i]).0@ == k && ids_map(s)[k] == s[i].1,
    decreases s.len(),
{
    if s.len() > 0 {
        lemma_ids_map_index(s.drop_last(), k);
        if s.last().0@ != k && ids_map(s).contains_key(k) {
            let i = choose|i: int|
                0 <= i < s.drop_last().len() && (#[trigger] s.drop_last()[i]).0@ == k
                && ids_map(s.drop_last())[k] == s.drop_last()[i].1;
            assert(s[i].0@ == k);
        }
        if s.last().0@ != k && exists|i: int| 0 <= i < s.len() && (#[trigger] s[i]).0@ == k {
            let i = choose|i: int| 0 <= i < s.len() && (#[trigger] s[i]).0@ == k;
            assert(s.drop_last()[i].0@ == k);
        }
    }
}

/// The ghost image of the whole scheduler.
#[verifier::ext_equal]
pub ghost struct SchedModel {
    /// The next task id to hand out; ids `1..max_id` are taken.
    pub max_id: int,
    /// The paged registry: installed pages and their slots.
    pub pages: Seq<Option<Seq<SlotModel>>>,
    /// Set once by `stop`; never cleared.
    pub stop: bool,
    /// Microseconds since scheduler start, as last written by the ticker.
    pub time_us: usize,
    /// Registered names and their ids.
    pub ids: Map<Seq<char>, TaskId>,
    /// Wake edges whose producer has not registered yet:
    /// (producer name, waiting consumer, producer channel).
    pub unresolved: Seq<(Seq<char>, TaskId, ChannelId)>,
}

impl SchedModel {
    /// Whether the page holding task `t` is installed.
    pub open spec fn page_installed(self, t: int) -> bool {
        &&& 0 <= t
        &&& page_of(t) < self.pages.len()
        &&& self.pages[page_of(t)] is Some
    }

    /// The slot of task `t`.
    pub open spec fn slot(self, t: int) -> SlotModel {
        self.pages[page_of(t)]->Some_0[slot_of(t)]
    }
}

/// The model after replacing the slot of task `t`.
pub open spec fn update_slot(m: SchedModel, t: int, s: SlotModel) -> SchedModel {
    SchedModel {
        pages: m.pages.update(
            page_of(t),
            Some(m.pages[page_of(t)]->Some_0.update(slot_of(t), s)),
        ),
        ..m
    }
}

/// The model after a wake of task `t`: its pending flag is set if its
/// page is installed, and nothing else changes.
pub open spec fn wake_model(m: SchedModel, t: int) -> SchedModel {
    if m.page_installed(t) && 0 <= slot_of(t) < PAGE_SIZE {
        update_slot(m, t, SlotModel { pending_wake: true, ..m.slot(t) })
    } else {
        m
    }
}

/// The scheduler's shared state. Construction, registration, wakes and
/// sweeps all go through this one structure.
pub struct SchedulerData<T> {
    /// The next task id to hand out.
    pub max_id: usize,
    /// Outer index vector: grows by appending cells, pages install once.
    pub l1: Vec<Option<TaskPage<T>>>,
    /// Set once by `stop`.
    pub stop: bool,
    /// Shared clock, written by the ticker.
    pub time_us: usize,
    /// Name table: registered task names with their ids.
    pub ids: Vec<(String, TaskId)>,
    /// Wake edges waiting for their producer to register.
    pub unresolved: Vec<(String, TaskId, ChannelId)>,
}


impl<T: Task> SchedulerData<T> {
    /// The ghost image of this scheduler.
    pub open spec fn model(self) -> SchedModel {
        SchedModel {
            max_id: self.max_id as int,
            pages: self.l1@.map_values(
                |p: Option<TaskPage<T>>| match p {
                    Some(pg) => Some(pg@),
                    None => None,
                },
            ),
            stop: self.stop,
            time_us: self.time_us,
            ids: ids_map(self.ids@),
            unresolved: self.unresolved@.map_values(
                |e: (String, TaskId, ChannelId)| (e.0@, e.1, e.2),
            ),
        }
    }

    /// Structural soundness of the registry: ids start at 1, every page a
    /// task id below `max_id` needs is installed (plus the pre-grown next
    /// page), installed pages are full-size, slots at or above `max_id`
    /// are empty, and registered names are unique with in-range ids.
    pub open spec fn wf(self) -> bool {
        let m = self.model();
        &&& 1 <= m.max_id
        &&& self.max_id < usize::MAX
        &&& page_of(m.max_id - 1) + 2 <= m.pages.len()
        &&& forall|p: int| 0 <= p <= page_of(m.max_id - 1) + 1 ==> (#[trigger] m.pages[p]) is Some
        &&& forall|p: int|
            0 <= p < m.pages.len() && m.pages[p] is Some
                ==> (#[trigger] m.pages[p])->Some_0.len() == PAGE_SIZE
        &&& forall|p: int, s: int|
            0 <= p < m.pages.len() && m.pages[p] is Some && 0 <= s < PAGE_SIZE
                && p * (PAGE_SIZE as int) + s >= m.max_id
                ==> !(#[trigger] m.pages[p]->Some_0[s]).installed
        &&& forall|i: int, j: int|
            0 <= i < j < self.ids@.len()
                ==> (#[trigger] self.ids@[i]).0@ != (#[trigger] self.ids@[j]).0@
        &&& forall|i: int|
            0 <= i < self.ids@.len() ==> 1 <= (#[trigger] self.ids@[i]).1.0 < m.max_id
    }

    /// Look a task id up by name; `Some` exactly for registered names.
    pub fn resolve_task_id(&self, name: &String) -> (r: Option<TaskId>)
        requires
            self.wf(),
        ensures
            r is Some <==> self.model().ids.contains_key(name@),
            r is Some ==> r->Some_0 == self.model().ids[name@],
    {
        let mut i: usize = 0;
        while i < self.ids.len()
            invariant
                i <= self.ids@.len(),
                self.wf(),
                forall|j: int| 0 <= j < i ==> (#[trigger] self.ids@[j]).0@ != name@,
            decreases self.ids@.len() - i,
        {
            if self.ids[i].0 == *name {
                proof {
                    lemma_ids_map_index(self.ids@, name@);
                    let j = choose|j: int|
                        0 <= j < self.ids@.len() && (#[trigger] self.ids@[j]).0@ == name@
                        && ids_map(self.ids@)[name@] == self.ids@[j].1;
                    assert(j == i);
                }
                return Some(self.ids[i].1);
            }
            i += 1;
        }
        proof {
            lemma_ids_map_index(self.ids@, name@);
        }
        None
    }

    /// Request shutdown: workers and the ticker observe the flag and exit.
    pub fn stop(&mut self)
        ensures
            final(self).model() == (SchedModel { stop: true, ..old(self).model() }),
            old(self).wf() ==> final(self).wf(),
    {
        self.stop = true;
    }

    /// Publish the ticker's reading of the monotonic clock.
    pub fn set_time_us(&mut self, t: usize)
        ensures
            final(self).model() == (SchedModel { time_us: t, ..old(self).model() }),
            old(self).wf() ==> final(self).wf(),
    {
        self.time_us = t;
    }

    /// Whether the per-worker statistics printout is compiled in; this
    /// build carries no diagnostics.
    pub fn print_stats_enabled(&self) -> (r: bool)
        ensures
            r == false,
    {
        false
    }
}

/// How many cells the outer index vector starts with and grows by.
pub fn initial_capacity() -> (r: usize)
    ensures
        r == 1048576,
{
    1024 * 1024
}


/// Microseconds since start, from a monotonic reading split into whole
/// seconds and the nanosecond remainder: what the ticker publishes.
pub fn elapsed_us(secs: u64, subsec_nanos: u32) -> (r: u64)
    requires
        secs <= 0xffff_ffff,
    ensures
        r == secs * 1_000_000 + subsec_nanos as u64 / 1000,
{
    secs * 1_000_000 + (subsec_nanos / 1000) as u64
}

/// A fresh scheduler: ids start at 1, the clock at 0, two pages pre-grown.
pub fn new<T: Task>() -> (r: SchedulerData<T>)
    ensures
        r.wf(),
        r.model().max_id == 1,
        !r.model().stop,
        r.model().time_us == 0,
        r.model().ids == Map::<Seq<char>, TaskId>::empty(),
        r.model().unresolved.len() == 0,
        r.model().pages.len() == 1048576,
        forall|p: int| 2 <= p < r.model().pages.len() ==> (#[trigger] r.model().pages[p]) is None,
        forall|t: int| 0 <= t < 2048 ==> r.model().page_installed(t) && r.model().slot(t) == empty_slot(),
{
    SchedulerData::new()
}

impl<T: Task> SchedulerData<T> {
    /// Allocate an L2 page at cell `idx`, growing the outer vector first
    /// when the cell does not yet exist.
    pub fn add_l2_page(&mut self, idx: usize)
        requires
            1 <= old(self).l1@.len(),
            idx <= old(self).l1@.len(),
        ensures
            final(self).max_id == old(self).max_id,
            final(self).stop == old(self).stop,
            final(self).time_us == old(self).time_us,
            final(self).ids == old(self).ids,
            final(self).unresolved == old(self).unresolved,
            final(self).model().pages.len() >= old(self).model().pages.len(),
            final(self).model().pages.len() >= idx + 2,
            idx + 2 <= old(self).model().pages.len() ==> final(self).model().pages.len()
                == old(self).model().pages.len(),
            forall|p: int|
                0 <= p < old(self).model().pages.len() && p != idx
                    ==> final(self).model().pages[p] == old(self).model().pages[p],
            forall|p: int|
                old(self).model().pages.len() <= p < final(self).model().pages.len() && p != idx
                    ==> final(self).model().pages[p] is None,
            final(self).model().pages[idx as int] is Some,
            final(self).model().pages[idx as int]->Some_0.len() == PAGE_SIZE,
            forall|s: int|
                0 <= s < PAGE_SIZE
                    ==> final(self).model().pages[idx as int]->Some_0[s] == empty_slot(),
    {
        let len = self.l1.len();
        if idx >= len - 1 {
            let grow = initial_capacity();
            let mut i: usize = 0;
            while i < grow
                invariant
                    i <= grow,
                    self.l1@.len() == len + i,
                    forall|p: int| 0 <= p < len ==> self.l1@[p] == old(self).l1@[p],
                    forall|p: int| len <= p < len + i ==> self.l1@[p] is None,
                    self.max_id == old(self).max_id,
                    self.stop == old(self).stop,
                    self.time_us == old(self).time_us,
                    self.ids == old(self).ids,
                    self.unresolved == old(self).unresolved,
                decreases grow - i,
            {
                self.l1.push(None);
                i += 1;
            }
        }
        let page: TaskPage<T> = TaskPage::new();
        let ghost pre = self.l1@;
        self.l1[idx] = Some(page);
        proof {
            assert(self.l1@ == pre.update(idx as int, self.l1@[idx as int]));
            assert(self.l1@[idx as int] is Some);
            assert forall|p: int| 0 <= p < old(self).model().pages.len() && p != idx
                implies final(self).model().pages[p] == old(self).model().pages[p] by {
                assert(self.l1@[p] == old(self).l1@[p]);
            }
        }
    }

    /// Register `name`, handing out the next dense id, or refuse a
    /// duplicate. On a page boundary the next page is grown at once, so
    /// every id below `max_id` always has its page installed.
    pub fn allocate_id_for_task(&mut self, name: &String) -> (r: Result<TaskId, Error>)
        requires
            old(self).wf(),
            old(self).max_id + 1 < usize::MAX,
        ensures
            final(self).wf(),
            old(self).model().ids.contains_key(name@) ==> r == Err::<TaskId, Error>(
                Error::AlreadyExists,
            ) && *final(self) == *old(self),
            !old(self).model().ids.contains_key(name@) ==> {
                &&& r == Ok::<TaskId, Error>(TaskId(old(self).max_id))
                &&& final(self).model().max_id == old(self).model().max_id + 1
                &&& final(self).model().ids == old(self).model().ids.insert(
                    name@,
                    TaskId(old(self).max_id),
                )
                &&& final(self).model().stop == old(self).model().stop
                &&& final(self).model().time_us == old(self).model().time_us
                &&& final(self).model().unresolved == old(self).model().unresolved
                &&& forall|t: int|
                    1 <= t < old(self).model().max_id ==> final(self).model().page_installed(t)
                        && old(self).model().page_installed(t)
                        && final(self).model().slot(t) == old(self).model().slot(t)
                &&& final(self).model().page_installed(old(self).model().max_id)
                &&& final(self).model().slot(old(self).model().max_id)
                    == old(self).model().slot(old(self).model().max_id)
            },
    {
        if self.resolve_task_id(name).is_some() {
            return Err(Error::AlreadyExists);
        }
        let id = self.max_id;
        self.max_id = id + 1;
        self.ids.push((name.clone(), TaskId(id)));
        proof {
            lemma_ids_map_index(old(self).ids@, name@);
            assert(self.ids@.drop_last() == old(self).ids@);
            assert forall|i: int, j: int| 0 <= i < j < self.ids@.len()
                implies (#[trigger] self.ids@[i]).0@ != (#[trigger] self.ids@[j]).0@ by {
                if j == self.ids@.len() - 1 {
                    assert(self.ids@[i] == old(self).ids@[i]);
                }
            }
            lemma_page_step(id as int);
        }
        let (l1_idx, l2) = position(id);
        if l2 == 0 {
            proof {
                lemma_div_is_ordered((id - 1) as int, id as int, PAGE_SIZE as int);
            }
            self.add_l2_page(l1_idx + 1);
        }
        proof {
            let pre = old(self).model();
            let post = self.model();
            lemma_div_is_ordered((id - 1) as int, id as int, PAGE_SIZE as int);
            assert forall|t: int| 1 <= t < pre.max_id implies post.page_installed(t)
                && pre.page_installed(t) && post.slot(t) == pre.slot(t) by {
                lemma_div_is_ordered(t, pre.max_id - 1, PAGE_SIZE as int);
            }
            assert forall|p: int, s: int|
                0 <= p < post.pages.len() && post.pages[p] is Some && 0 <= s < PAGE_SIZE
                    && p * (PAGE_SIZE as int) + s >= post.max_id
                implies !(#[trigger] post.pages[p]->Some_0[s]).installed by {
                if p < pre.pages.len() && (l2 != 0 || p != l1_idx + 1) {
                    assert(post.pages[p] == pre.pages[p]);
                }
            }
        }
        Ok(TaskId(id))
    }

    /// Mark the task as runnable only on an external wake.
    pub fn mark_conditional_task(&mut self, id: TaskId)
        requires
            old(self).wf(),
        ensures
            final(self).wf(),
            final(self).max_id == old(self).max_id,
            final(self).ids == old(self).ids,
            final(self).model() == (if old(self).model().page_installed(id.0 as int) {
                update_slot(
                    old(self).model(),
                    id.0 as int,
                    SlotModel {
                        conditional_exec: true,
                        ..old(self).model().slot(id.0 as int)
                    },
                )
            } else {
                old(self).model()
            }),
    {
        let (l1_idx, l2) = position(id.0);
        if l1_idx < self.l1.len() {
            let ghost pre = self.l1@;
            proof {
                if self.model().pages[l1_idx as int] is Some {
                    assert(self.model().pages[l1_idx as int]->Some_0.len() == PAGE_SIZE);
                }
            }
            match self.l1[l1_idx].as_mut() {
                Some(pg) => {
                    pg.set_conditional_exec_flag(l2);
                },
                None => {},
            }
            proof {
                self.lemma_page_update(old(self), id.0 as int, pre);
            }
        }
    }

    /// Mark the task as time-periodic.
    pub fn mark_periodic_task(&mut self, id: TaskId, period: PeriodLengthInUsec)
        requires
            old(self).wf(),
        ensures
            final(self).wf(),
            final(self).max_id == old(self).max_id,
            final(self).ids == old(self).ids,
            final(self).model() == (if old(self).model().page_installed(id.0 as int) {
                update_slot(
                    old(self).model(),
                    id.0 as int,
                    SlotModel { periodic: Some(period), ..old(self).model().slot(id.0 as int) },
                )
            } else {
                old(self).model()
            }),
    {
        let (l1_idx, l2) = position(id.0);
        if l1_idx < self.l1.len() {
            let ghost pre = self.l1@;
            proof {
                if self.model().pages[l1_idx as int] is Some {
                    assert(self.model().pages[l1_idx as int]->Some_0.len() == PAGE_SIZE);
                }
            }
            match self.l1[l1_idx].as_mut() {
                Some(pg) => {
                    pg.set_delayed_exec(l2, period);
                },
                None => {},
            }
            proof {
                self.lemma_page_update(old(self), id.0 as int, pre);
            }
        }
    }

    /// After a page-local change at the slot of task `t`, the scheduler
    /// is still well formed and the model changed by that slot alone.
    proof fn lemma_page_update(&self, pre: &Self, t: int, pre_l1: Seq<Option<TaskPage<T>>>)
        requires
            pre.wf(),
            0 <= t,
            pre_l1 == pre.l1@,
            page_of(t) < pre_l1.len(),
            self.l1@.len() == pre_l1.len(),
            forall|p: int| 0 <= p < pre_l1.len() && p != page_of(t) ==> self.l1@[p] == pre_l1[p],
            self.l1@[page_of(t)] is Some <==> pre_l1[page_of(t)] is Some,
            pre_l1[page_of(t)] is Some ==> {
                &&& self.l1@[page_of(t)]->Some_0@.len() == pre_l1[page_of(t)]->Some_0@.len()
                &&& forall|s: int|
                    0 <= s < PAGE_SIZE && s != slot_of(t)
                        ==> self.l1@[page_of(t)]->Some_0@[s] == pre_l1[page_of(t)]->Some_0@[s]
                &&& (self.l1@[page_of(t)]->Some_0@[slot_of(t)].installed
                    == pre_l1[page_of(t)]->Some_0@[slot_of(t)].installed || t < pre.max_id)
            },
            self.max_id == pre.max_id,
            self.stop == pre.stop,
            self.time_us == pre.time_us,
            self.ids == pre.ids,
            self.unresolved == pre.unresolved,
        ensures
            self.wf(),
            pre.model().page_installed(t) ==> self.model() == update_slot(
                pre.model(),
                t,
                self.model().slot(t),
            ),
            !pre.model().page_installed(t) ==> self.model() == pre.model(),
            pre.model().page_installed(t) ==> self.model().slot(t)
                == self.l1@[page_of(t)]->Some_0@[slot_of(t)],
    {
        vstd::arithmetic::div_mod::lemma_mod_bound(t, PAGE_SIZE as int);
        let mpre = pre.model();
        let mpost = self.model();
        assert(mpost.pages.len() == mpre.pages.len());
        assert forall|p: int| 0 <= p < mpre.pages.len() && p != page_of(t)
            implies mpost.pages[p] == mpre.pages[p] by {
            assert(self.l1@[p] == pre_l1[p]);
        }
        if mpre.page_installed(t) {
            assert(mpost.pages[page_of(t)] is Some);
            assert(mpost.pages[page_of(t)]->Some_0 =~= mpre.pages[page_of(t)]->Some_0.update(
                slot_of(t),
                mpost.slot(t),
            ));
            assert(mpost.pages =~= update_slot(mpre, t, mpost.slot(t)).pages);
            assert(mpost =~~= update_slot(mpre, t, mpost.slot(t)));
        } else {
            assert(mpost.pages =~= mpre.pages);
            assert(mpost =~~= mpre);
        }
        assert forall|p: int, q: int|
            0 <= p < mpost.pages.len() && mpost.pages[p] is Some && 0 <= q < PAGE_SIZE
                && p * (PAGE_SIZE as int) + q >= mpost.max_id
            implies !(#[trigger] mpost.pages[p]->Some_0[q]).installed by {
            if p == page_of(t) && q == slot_of(t) && mpre.page_installed(t) {
                assert(mpost.pages[p]->Some_0[q].installed == mpre.pages[p]->Some_0[q].installed);
            } else {
                assert(mpost.pages[p]->Some_0[q] == mpre.pages[p]->Some_0[q]);
            }
        }
    }

    /// Set the pending wake flag of task `id`: the low-level wake.
    pub fn schedule_exec(&mut self, id: &TaskId)
        requires
            old(self).wf(),
        ensures
            final(self).wf(),
            final(self).max_id == old(self).max_id,
            final(self).ids == old(self).ids,
            final(self).stop == old(self).stop,
            final(self).time_us == old(self).time_us,
            final(self).unresolved == old(self).unresolved,
            final(self).model() == wake_model(old(self).model(), id.0 as int),
    {
        let (l1_idx, l2) = position(id.0);
        if l1_idx < self.l1.len() {
            let ghost pre = self.l1@;
            proof {
                if self.model().pages[l1_idx as int] is Some {
                    assert(self.model().pages[l1_idx as int]->Some_0.len() == PAGE_SIZE);
                }
            }
            match self.l1[l1_idx].as_mut() {
                Some(pg) => {
                    pg.schedule_exec(l2);
                },
                None => {},
            }
            proof {
                self.lemma_page_update(old(self), id.0 as int, pre);
            }
        }
    }

    /// Wake task `id` from outside: refused while stopping, refused for
    /// ids never handed out, otherwise sets the task's pending flag.
    pub fn notify(&mut self, id: &TaskId) -> (r: Result<(), Error>)
        requires
            old(self).wf(),
        ensures
            final(self).wf(),
            old(self).model().stop ==> r == Err::<(), Error>(Error::Stopping) && *final(self)
                == *old(self),
            !old(self).model().stop && id.0 >= old(self).max_id ==> r == Err::<(), Error>(
                Error::NonExistent,
            ) && *final(self) == *old(self),
            !old(self).model().stop && id.0 < old(self).max_id ==> r == Ok::<(), Error>(())
                && final(self).model() == wake_model(old(self).model(), id.0 as int),
    {
        if self.stop {
            return Err(Error::Stopping);
        }
        if id.0 >= self.max_id {
            return Err(Error::NonExistent);
        }
        proof {
            lemma_div_is_ordered(id.0 as int, (self.max_id - 1) as int, PAGE_SIZE as int);
        }
        let (l1_idx, l2) = position(id.0);
        if l1_idx >= self.l1.len() {
            proof {
                assert(false);
            }
            return Err(Error::NonExistent);
        }
        let ghost pre = self.l1@;
        proof {
            assert(self.model().pages[l1_idx as int] is Some);
            assert(self.model().pages[l1_idx as int]->Some_0.len() == PAGE_SIZE);
            assert(self.l1@[l1_idx as int] is Some);
        }
        match self.l1[l1_idx].as_mut() {
            Some(pg) => {
                pg.schedule_exec(l2);
            },
            None => {
                proof {
                    assert(false);
                }
            },
        }
        proof {
            self.lemma_page_update(old(self), id.0 as int, pre);
        }
        Ok(())
    }
}

impl<T: Task> SchedulerData<T> {
    /// Build the registry: the outer vector pre-grown to its initial
    /// capacity of null cells, pages 0 and 1 installed, id 0 skipped.
    pub fn new() -> (r: SchedulerData<T>)
        ensures
            r.wf(),
            r.model().max_id == 1,
            !r.model().stop,
            r.model().time_us == 0,
            r.model().ids == Map::<Seq<char>, TaskId>::empty(),
            r.model().unresolved.len() == 0,
            r.model().pages.len() == 1048576,
            forall|p: int| 2 <= p < r.model().pages.len() ==> (#[trigger] r.model().pages[p]) is None,
            forall|t: int|
                0 <= t < 2048 ==> r.model().page_installed(t) && r.model().slot(t)
                    == empty_slot(),
    {
        let mut data: SchedulerData<T> = SchedulerData {
            max_id: 1,
            l1: Vec::new(),
            stop: false,
            time_us: 0,
            ids: Vec::new(),
            unresolved: Vec::new(),
        };
        let cap = initial_capacity();
        let mut i: usize = 0;
        while i < cap
            invariant
                i <= cap,
                data.l1@.len() == i,
                forall|p: int| 0 <= p < i ==> data.l1@[p] is None,
                data.max_id == 1,
                data.stop == false,
                data.time_us == 0,
                data.ids@.len() == 0,
                data.unresolved@.len() == 0,
            decreases cap - i,
        {
            data.l1.push(None);
            i += 1;
        }
        let ghost m_init = data.model();
        data.add_l2_page(0);
        let ghost m_a = data.model();
        data.add_l2_page(1);
        proof {
            assert forall|p: int| 2 <= p < data.model().pages.len()
                implies data.model().pages[p] is None by {
                if p < m_a.pages.len() {
                    assert(data.model().pages[p] == m_a.pages[p]);
                    if p < m_init.pages.len() {
                        assert(m_a.pages[p] == m_init.pages[p]);
                        assert(m_init.pages[p] is None);
                    }
                }
            }
            assert forall|t: int| 0 <= t < 2048 implies data.model().page_installed(t)
                && data.model().slot(t) == empty_slot() by {
                lemma_fundamental_div_mod(t, PAGE_SIZE as int);
                vstd::arithmetic::div_mod::lemma_mod_bound(t, PAGE_SIZE as int);
                if t < 1024 {
                    lemma_fundamental_div_mod_converse(t, PAGE_SIZE as int, 0, t);
                } else {
                    lemma_fundamental_div_mod_converse(t, PAGE_SIZE as int, 1, t - 1024);
                }
            }
            assert forall|p: int, s: int|
                0 <= p < data.model().pages.len() && data.model().pages[p] is Some
                    && 0 <= s < PAGE_SIZE && p * (PAGE_SIZE as int) + s >= data.model().max_id
                implies !(#[trigger] data.model().pages[p]->Some_0[s]).installed by {
                if p >= 2 {
                    assert(data.model().pages[p] is None);
                }
                assert(p == 0 || p == 1);
                assert(data.model().pages[p]->Some_0[s] == empty_slot());
            }
        }
        data
    }
}

impl<T: Task> SchedulerData<T> {
    /// Record wake edges on the slot of task `id`: when the named output
    /// channels advance, the listed consumers are woken.
    fn register_dependents(&mut self, id: TaskId, deps: Vec<(ChannelId, TaskId)>)
        requires
            old(self).wf(),
        ensures
            final(self).wf(),
            final(self).max_id == old(self).max_id,
            final(self).ids == old(self).ids,
            deps@.len() == 0 ==> *final(self) == *old(self),
            deps@.len() > 0 ==> final(self).model() == (
                if old(self).model().page_installed(id.0 as int) {
                    update_slot(
                        old(self).model(),
                        id.0 as int,
                        SlotModel {
                            has_dependents: true,
                            dependents: old(self).model().slot(id.0 as int).dependents + deps@,
                            ..old(self).model().slot(id.0 as int)
                        },
                    )
                } else {
                    old(self).model()
                }
            ),
    {
        if deps.len() == 0 {
            return;
        }
        let (l1_idx, l2) = position(id.0);
        if l1_idx < self.l1.len() {
            let ghost pre = self.l1@;
            proof {
                if self.model().pages[l1_idx as int] is Some {
                    assert(self.model().pages[l1_idx as int]->Some_0.len() == PAGE_SIZE);
                }
            }
            match self.l1[l1_idx].as_mut() {
                Some(pg) => {
                    pg.add_dependents(l2, &deps);
                },
                None => {},
            }
            proof {
                self.lemma_page_update(old(self), id.0 as int, pre);
            }
        }
    }
}

/// How already-registered slots may change while task `newid` registers:
/// nothing but dependent lists move, they only grow, and every edge added
/// points at the new task.
pub open spec fn frame_growth(pre: SchedModel, post: SchedModel, newid: TaskId, excl: int) -> bool {
    forall|u: int|
        1 <= u < pre.max_id && u != excl && pre.page_installed(u) ==> {
            &&& post.page_installed(u)
            &&& (#[trigger] post.slot(u)).installed == pre.slot(u).installed
            &&& post.slot(u).state == pre.slot(u).state
            &&& post.slot(u).conditional_exec == pre.slot(u).conditional_exec
            &&& post.slot(u).periodic == pre.slot(u).periodic
            &&& post.slot(u).next_deadline_us == pre.slot(u).next_deadline_us
            &&& post.slot(u).last_seqnos == pre.slot(u).last_seqnos
            &&& post.slot(u).pending_wake == pre.slot(u).pending_wake
            &&& post.slot(u).dependents.len() >= pre.slot(u).dependents.len()
            &&& (forall|k: int|
                0 <= k < pre.slot(u).dependents.len() ==> post.slot(u).dependents[k]
                    == pre.slot(u).dependents[k])
            &&& (forall|k: int|
                pre.slot(u).dependents.len() <= k < post.slot(u).dependents.len()
                    ==> (#[trigger] post.slot(u).dependents[k]).1 == newid)
        }
}

/// Replacing the slot of task `t` leaves the slot of any other task as it
/// was, and puts the new value at `t`.
pub proof fn lemma_slot_other(m: SchedModel, t: int, s: SlotModel, u: int)
    requires
        0 <= t,
        0 <= u,
        page_of(t) < m.pages.len(),
        m.page_installed(t) ==> m.pages[page_of(t)]->Some_0.len() == PAGE_SIZE,
    ensures
        u != t && m.page_installed(u) ==> update_slot(m, t, s).slot(u) == m.slot(u),
        m.page_installed(u) ==> update_slot(m, t, s).page_installed(u),
        m.page_installed(t) && m.pages[page_of(t)]->Some_0.len() == PAGE_SIZE
            ==> update_slot(m, t, s).slot(t) == s,
{
    lemma_fundamental_div_mod(u, PAGE_SIZE as int);
    lemma_fundamental_div_mod(t, PAGE_SIZE as int);
    vstd::arithmetic::div_mod::lemma_mod_bound(u, PAGE_SIZE as int);
    vstd::arithmetic::div_mod::lemma_mod_bound(t, PAGE_SIZE as int);
}



/// Every drained wake edge came from a parked entry under `name`.
pub open spec fn drained_from(
    rt: Seq<(ChannelId, TaskId)>,
    u0: Seq<(String, TaskId, ChannelId)>,
    name: Seq<char>,
) -> bool {
    forall|k: int|
        0 <= k < rt.len() ==> exists|j: int|
            0 <= j < u0.len() && u0[j].0@ == name && (#[trigger] rt[k]) == (u0[j].2, u0[j].1)
}

/// Every kept entry came from a parked entry under another name.
pub open spec fn kept_from(
    rem: Seq<(String, TaskId, ChannelId)>,
    u0: Seq<(String, TaskId, ChannelId)>,
    name: Seq<char>,
) -> bool {
    forall|k: int|
        0 <= k < rem.len() ==> exists|j: int|
            0 <= j < u0.len() && u0[j].0@ != name && (#[trigger] rem[k]) == u0[j]
}


/// `frame_growth` only reads the pages, so models with equal pages agree.
pub proof fn lemma_frame_growth_same(
    pre: SchedModel,
    mid: SchedModel,
    post: SchedModel,
    newid: TaskId,
    excl: int,
)
    requires
        frame_growth(pre, mid, newid, excl),
        post.pages == mid.pages,
    ensures
        frame_growth(pre, post, newid, excl),
{
    assert forall|u: int|
        1 <= u < pre.max_id && u != excl && pre.page_installed(u) implies {
            &&& post.page_installed(u)
            &&& (#[trigger] post.slot(u)).installed == pre.slot(u).installed
            &&& post.slot(u).state == pre.slot(u).state
            &&& post.slot(u).conditional_exec == pre.slot(u).conditional_exec
            &&& post.slot(u).periodic == pre.slot(u).periodic
            &&& post.slot(u).next_deadline_us == pre.slot(u).next_deadline_us
            &&& post.slot(u).last_seqnos == pre.slot(u).last_seqnos
            &&& post.slot(u).pending_wake == pre.slot(u).pending_wake
            &&& post.slot(u).dependents.len() >= pre.slot(u).dependents.len()
            &&& (forall|k: int|
                0 <= k < pre.slot(u).dependents.len() ==> post.slot(u).dependents[k]
                    == pre.slot(u).dependents[k])
            &&& (forall|k: int|
                pre.slot(u).dependents.len() <= k < post.slot(u).dependents.len()
                    ==> (#[trigger] post.slot(u).dependents[k]).1 == newid)
        } by {
        assert(post.slot(u) == mid.slot(u));
        assert(mid.page_installed(u));
        assert(mid.slot(u).installed == pre.slot(u).installed);
    }
}

/// `frame_growth` is preserved by replacing one slot, provided the new
/// slot value itself only grows its dependent list with edges to the new
/// task (or the slot is the excluded one).
pub proof fn lemma_frame_growth_update(
    pre: SchedModel,
    m: SchedModel,
    newid: TaskId,
    excl: int,
    su: int,
    s: SlotModel,
)
    requires
        frame_growth(pre, m, newid, excl),
        0 <= su,
        page_of(su) < m.pages.len(),
        m.page_installed(su) ==> m.pages[page_of(su)]->Some_0.len() == PAGE_SIZE,
        su == excl || {
            &&& s.installed == m.slot(su).installed
            &&& s.state == m.slot(su).state
            &&& s.conditional_exec == m.slot(su).conditional_exec
            &&& s.periodic == m.slot(su).periodic
            &&& s.next_deadline_us == m.slot(su).next_deadline_us
            &&& s.last_seqnos == m.slot(su).last_seqnos
            &&& s.pending_wake == m.slot(su).pending_wake
            &&& s.dependents.len() >= m.slot(su).dependents.len()
            &&& (forall|k: int|
                0 <= k < m.slot(su).dependents.len() ==> s.dependents[k]
                    == m.slot(su).dependents[k])
            &&& (forall|k: int|
                m.slot(su).dependents.len() <= k < s.dependents.len()
                    ==> (#[trigger] s.dependents[k]).1 == newid)
        },
    ensures
        frame_growth(pre, update_slot(m, su, s), newid, excl),
{
    let post = update_slot(m, su, s);
    assert forall|u: int|
        1 <= u < pre.max_id && u != excl && pre.page_installed(u) implies {
            &&& post.page_installed(u)
            &&& (#[trigger] post.slot(u)).installed == pre.slot(u).installed
            &&& post.slot(u).state == pre.slot(u).state
            &&& post.slot(u).conditional_exec == pre.slot(u).conditional_exec
            &&& post.slot(u).periodic == pre.slot(u).periodic
            &&& post.slot(u).next_deadline_us == pre.slot(u).next_deadline_us
            &&& post.slot(u).last_seqnos == pre.slot(u).last_seqnos
            &&& post.slot(u).pending_wake == pre.slot(u).pending_wake
            &&& post.slot(u).dependents.len() >= pre.slot(u).dependents.len()
            &&& (forall|k: int|
                0 <= k < pre.slot(u).dependents.len() ==> post.slot(u).dependents[k]
                    == pre.slot(u).dependents[k])
            &&& (forall|k: int|
                pre.slot(u).dependents.len() <= k < post.slot(u).dependents.len()
                    ==> (#[trigger] post.slot(u).dependents[k]).1 == newid)
        } by {
        lemma_slot_other(m, su, s, u);
        if u == su {
            assert(post.slot(u) == s);
            assert forall|k: int|
                pre.slot(u).dependents.len() <= k < post.slot(u).dependents.len()
                implies (#[trigger] post.slot(u).dependents[k]).1 == newid by {
                if k < m.slot(su).dependents.len() {
                    assert(s.dependents[k] == m.slot(su).dependents[k]);
                }
            }
        }
    }
}

impl<T: Task> SchedulerData<T> {
    /// Install a control block into the slot of task `id`.
    fn store_task(&mut self, id: TaskId, task: T)
        requires
            old(self).wf(),
            id.0 < old(self).max_id,
            old(self).model().page_installed(id.0 as int),
            !old(self).model().slot(id.0 as int).installed,
        ensures
            final(self).wf(),
            final(self).max_id == old(self).max_id,
            final(self).ids == old(self).ids,
            final(self).unresolved == old(self).unresolved,
            final(self).stop == old(self).stop,
            final(self).time_us == old(self).time_us,
            final(self).model() == update_slot(
                old(self).model(),
                id.0 as int,
                final(self).model().slot(id.0 as int),
            ),
            final(self).model().page_installed(id.0 as int),
            final(self).model().slot(id.0 as int) == (SlotModel {
                installed: true,
                state: TaskState::Execute,
                last_seqnos: final(self).model().slot(id.0 as int).last_seqnos,
                ..old(self).model().slot(id.0 as int)
            }),
            final(self).model().slot(id.0 as int).last_seqnos.len()
                == task.output_count_spec(),
    {
        let (l1_idx, l2) = position(id.0);
        proof {
            vstd::arithmetic::div_mod::lemma_mod_bound(id.0 as int, PAGE_SIZE as int);
            assert(self.model().pages[l1_idx as int] is Some);
            assert(self.model().pages[l1_idx as int]->Some_0.len() == PAGE_SIZE);
            assert(self.l1@[l1_idx as int] is Some);
        }
        let ghost pre_l1 = self.l1@;
        match self.l1[l1_idx].as_mut() {
            Some(pg) => {
                pg.store(l2, task);
            },
            None => {
                proof {
                    assert(false);
                }
            },
        }
        proof {
            self.lemma_page_update(old(self), id.0 as int, pre_l1);
        }
    }

    /// Register a task under a scheduling rule: hand out the next id (or
    /// refuse a duplicate name), wire its declared input edges to the
    /// producers that already registered and park the rest as unresolved,
    /// set the rule's flags, install the control block, and drain the
    /// unresolved edges that were waiting for this name.
    #[verifier::rlimit(100)]
    pub fn add_task(&mut self, task: T, rule: SchedulingRule) -> (r: Result<TaskId, Error>)
        requires
            old(self).wf(),
            old(self).max_id + 1 < usize::MAX,
        ensures
            final(self).wf(),
            old(self).model().ids.contains_key(task.name_spec()) ==> r == Err::<TaskId, Error>(
                Error::AlreadyExists,
            ) && *final(self) == *old(self),
            !old(self).model().ids.contains_key(task.name_spec()) ==> {
                let pre = old(self).model();
                let post = final(self).model();
                let t = pre.max_id;
                let tid = TaskId(old(self).max_id);
                &&& r == Ok::<TaskId, Error>(tid)
                &&& post.max_id == pre.max_id + 1
                &&& post.ids == pre.ids.insert(task.name_spec(), tid)
                &&& post.stop == pre.stop
                &&& post.time_us == pre.time_us
                &&& post.page_installed(t)
                &&& post.slot(t).installed
                &&& post.slot(t).state == TaskState::Execute
                &&& post.slot(t).last_seqnos.len() == task.output_count_spec()
                &&& post.slot(t).conditional_exec == (pre.slot(t).conditional_exec
                    || rule is OnMessage || rule is OnExternalEvent)
                &&& post.slot(t).periodic == (match rule {
                    SchedulingRule::Periodic(p) => Some(p),
                    _ => pre.slot(t).periodic,
                })
                &&& post.slot(t).pending_wake == pre.slot(t).pending_wake
                &&& forall|i: int|
                    0 <= i < pre.unresolved.len() && (#[trigger] pre.unresolved[i]).0
                        == task.name_spec() ==> post.slot(t).dependents.contains(
                        (pre.unresolved[i].2, pre.unresolved[i].1),
                    )
                &&& (rule is OnMessage ==> forall|i: int|
                    0 <= i < task.input_count_spec() && (#[trigger] task.input_spec(i)) is Some
                        ==> {
                        let ch = task.input_spec(i)->Some_0.0;
                        let sname = task.input_spec(i)->Some_0.1;
                        let ids1 = pre.ids.insert(task.name_spec(), tid);
                        if ids1.contains_key(sname) {
                            post.slot(ids1[sname].0 as int).dependents.contains((ch, tid))
                        } else {
                            post.unresolved.contains((sname, tid, ch))
                        }
                    })
                &&& forall|i: int|
                    0 <= i < post.unresolved.len() ==> (#[trigger] post.unresolved[i]).0
                        != task.name_spec()
                &&& forall|i: int|
                    0 <= i < pre.unresolved.len() && (#[trigger] pre.unresolved[i]).0
                        != task.name_spec() ==> post.unresolved.contains(pre.unresolved[i])
                &&& forall|i: int|
                    0 <= i < post.unresolved.len() ==> pre.unresolved.contains(
                        #[trigger] post.unresolved[i],
                    ) || post.unresolved[i].1 == tid
                &&& frame_growth(pre, post, tid, t)
            },
    {
        let name = task.name().clone();
        let alloc = self.allocate_id_for_task(&name);
        let task_id: TaskId;
        match alloc {
            Err(e) => {
                return Err(e);
            },
            Ok(tt) => {
                task_id = tt;
            },
        }
        let ghost pre = old(self).model();
        let ghost t = pre.max_id;
        let ghost m1 = self.model();
        proof {
            lemma_page_step(t);
            vstd::arithmetic::div_mod::lemma_mod_bound(t, PAGE_SIZE as int);
            lemma_div_is_ordered(t - 1, t, PAGE_SIZE as int);
            assert(pre.page_installed(t));
            assert(!pre.slot(t).installed);
            assert(m1.slot(t) == pre.slot(t));
            assert(m1.unresolved == pre.unresolved);
        }

        match rule {
            SchedulingRule::OnMessage => {
                let input_count = task.input_count();
                let mut i: usize = 0;
                while i < input_count
                    invariant
                        i <= input_count,
                        input_count as int == task.input_count_spec(),
                        self.wf(),
                        t == pre.max_id,
                        1 <= t,
                        task_id == TaskId(t as usize),
                        self.max_id as int == t + 1,
                        name@ == task.name_spec(),
                        self.model().ids == m1.ids,
                        m1.ids == pre.ids.insert(task.name_spec(), task_id),
                        self.model().stop == m1.stop,
                        self.model().time_us == m1.time_us,
                        m1.ids.contains_key(task.name_spec()),
                        m1.ids[task.name_spec()] == task_id,
                        pre.page_installed(t),
                        self.model().page_installed(t),
                        self.model().slot(t).installed == m1.slot(t).installed,
                        !m1.slot(t).installed,
                        m1.slot(t) == pre.slot(t),
                        m1.unresolved == pre.unresolved,
                        self.model().slot(t).state == m1.slot(t).state,
                        self.model().slot(t).conditional_exec == m1.slot(t).conditional_exec,
                        self.model().slot(t).periodic == m1.slot(t).periodic,
                        self.model().slot(t).next_deadline_us == m1.slot(t).next_deadline_us,
                        self.model().slot(t).last_seqnos == m1.slot(t).last_seqnos,
                        self.model().slot(t).pending_wake == m1.slot(t).pending_wake,
                        self.model().slot(t).dependents.len() >= m1.slot(t).dependents.len(),
                        forall|k: int|
                            0 <= k < m1.slot(t).dependents.len()
                                ==> self.model().slot(t).dependents[k]
                                == m1.slot(t).dependents[k],
                        forall|k: int|
                            m1.slot(t).dependents.len() <= k
                                < self.model().slot(t).dependents.len()
                                ==> (#[trigger] self.model().slot(t).dependents[k]).1 == task_id,
                        frame_growth(pre, self.model(), task_id, t),
                        forall|j: int|
                            0 <= j < i && (#[trigger] task.input_spec(j)) is Some ==> {
                                let ch = task.input_spec(j)->Some_0.0;
                                let sname = task.input_spec(j)->Some_0.1;
                                if m1.ids.contains_key(sname) {
                                    self.model().page_installed(m1.ids[sname].0 as int)
                                    && self.model().slot(m1.ids[sname].0 as int).dependents
                                        .contains((ch, task_id))
                                } else {
                                    self.model().unresolved.contains((sname, task_id, ch))
                                }
                            },
                        self.model().unresolved.len() >= m1.unresolved.len(),
                        forall|k: int|
                            0 <= k < m1.unresolved.len() ==> self.model().unresolved[k]
                                == m1.unresolved[k],
                        forall|k: int|
                            m1.unresolved.len() <= k < self.model().unresolved.len() ==> {
                                &&& (#[trigger] self.model().unresolved[k]).1 == task_id
                                &&& self.model().unresolved[k].0 != task.name_spec()
                            },
                    decreases input_count - i,
                {
                    let ghost m_it = self.model();
                    match task.input_id(ReceiverChannelId(i)) {
                        Some(p) => {
                            let sender_ch_id = p.0;
                            let sender_name = p.1;
                            match self.resolve_task_id(&sender_name.0) {
                                Some(sender_id) => {
                                    let mut deps: Vec<(ChannelId, TaskId)> = Vec::new();
                                    deps.push((sender_ch_id, task_id));
                                    proof {
                                        lemma_ids_map_index(self.ids@, sender_name.0@);
                                        lemma_div_is_ordered(
                                            sender_id.0 as int,
                                            self.max_id as int - 1,
                                            PAGE_SIZE as int,
                                        );
                                        assert(m_it.page_installed(sender_id.0 as int));
                                    }
                                    let ghost depsv = deps@;
                                    self.register_dependents(sender_id, deps);
                                    proof {
                                        let su = sender_id.0 as int;
                                        assert(depsv =~= seq![(sender_ch_id, task_id)]);
                                        let slot_lit = SlotModel {
                                            has_dependents: true,
                                            dependents: m_it.slot(su).dependents + depsv,
                                            ..m_it.slot(su)
                                        };
                                        assert(self.model() == update_slot(m_it, su, slot_lit));
                                        lemma_slot_other(m_it, su, slot_lit, su);
                                        assert(self.model().slot(su) == slot_lit);
                                        assert forall|u: int|
                                            0 <= u && u != su && m_it.page_installed(u)
                                            implies self.model().page_installed(u)
                                                && self.model().slot(u) == m_it.slot(u) by {
                                            lemma_slot_other(m_it, su, slot_lit, u);
                                        }
                                        let d = self.model().slot(su).dependents;
                                        assert(d[d.len() - 1] == (sender_ch_id, task_id));
                                        assert(forall|k: int| 0 <= k < m_it.slot(su).dependents.len()
                                            ==> d[k] == m_it.slot(su).dependents[k]);
                                        if su != t {
                                            lemma_frame_growth_update(
                                                pre, m_it, task_id, t, su, slot_lit,
                                            );
                                        } else {
                                            lemma_frame_growth_update(
                                                pre, m_it, task_id, t, t, slot_lit,
                                            );
                                        }
                                    }
                                },
                                None => {
                                    let ghost snv = sender_name.0@;
                                    self.unresolved.push(
                                        (sender_name.0, task_id, sender_ch_id),
                                    );
                                    proof {
                                        assert(self.model().unresolved =~= m_it.unresolved.push(
                                            (snv, task_id, sender_ch_id),
                                        ));
                                        assert(self.model().pages == m_it.pages);
                                        assert(self.model().unresolved[
                                            self.model().unresolved.len() - 1
                                        ] == (snv, task_id, sender_ch_id));
                                        lemma_frame_growth_same(
                                            pre, m_it, self.model(), task_id, t,
                                        );
                                    }
                                },
                            }
                        },
                        None => {},
                    }
                    proof {
                        let mnow = self.model();
                        assert forall|j: int|
                            0 <= j < i + 1 && (#[trigger] task.input_spec(j)) is Some implies ({
                                let ch = task.input_spec(j)->Some_0.0;
                                let sname = task.input_spec(j)->Some_0.1;
                                if m1.ids.contains_key(sname) {
                                    mnow.page_installed(m1.ids[sname].0 as int)
                                    && mnow.slot(m1.ids[sname].0 as int).dependents.contains(
                                        (ch, task_id),
                                    )
                                } else {
                                    mnow.unresolved.contains((sname, task_id, ch))
                                }
                            }) by {
                            let ch = task.input_spec(j)->Some_0.0;
                            let sname = task.input_spec(j)->Some_0.1;
                            if j < i {
                                if m1.ids.contains_key(sname) {
                                    let u = m1.ids[sname].0 as int;
                                    let dpre = m_it.slot(u).dependents;
                                    let dnow = mnow.slot(u).dependents;
                                    let k = choose|k: int|
                                        0 <= k < dpre.len() && dpre[k] == (ch, task_id);
                                    assert(dnow[k] == (ch, task_id));
                                } else {
                                    let k = choose|k: int|
                                        0 <= k < m_it.unresolved.len() && m_it.unresolved[k]
                                            == (sname, task_id, ch);
                                    assert(mnow.unresolved[k] == (sname, task_id, ch));
                                }
                            } else {
                                if m1.ids.contains_key(sname) {
                                    let u = m1.ids[sname].0 as int;
                                    let dnow = mnow.slot(u).dependents;
                                    assert(dnow[dnow.len() - 1] == (ch, task_id));
                                } else {
                                    assert(mnow.unresolved[mnow.unresolved.len() - 1]
                                        == (sname, task_id, ch));
                                }
                            }
                        }
                        assert(frame_growth(pre, mnow, task_id, t));
                    }
                    i += 1;
                }
                let ghost mL = self.model();
                self.mark_conditional_task(task_id);
                proof {
                    assert(mL.page_installed(t));
                    assert forall|u: int| 0 <= u && u != t && mL.page_installed(u)
                        implies self.model().page_installed(u)
                            && self.model().slot(u) == mL.slot(u) by {
                        lemma_slot_other(mL, t, self.model().slot(t), u);
                    }
                    lemma_slot_other(mL, t, SlotModel { conditional_exec: true, ..mL.slot(t) }, t);
                }
            },
            SchedulingRule::OnExternalEvent => {
                let ghost mL = self.model();
                self.mark_conditional_task(task_id);
                proof {
                    assert forall|u: int| 0 <= u && u != t && mL.page_installed(u)
                        implies self.model().page_installed(u)
                            && self.model().slot(u) == mL.slot(u) by {
                        lemma_slot_other(mL, t, self.model().slot(t), u);
                    }
                    lemma_slot_other(mL, t, SlotModel { conditional_exec: true, ..mL.slot(t) }, t);
                }
            },
            SchedulingRule::Periodic(period) => {
                let ghost mL = self.model();
                self.mark_periodic_task(task_id, period);
                proof {
                    assert forall|u: int| 0 <= u && u != t && mL.page_installed(u)
                        implies self.model().page_installed(u)
                            && self.model().slot(u) == mL.slot(u) by {
                        lemma_slot_other(mL, t, self.model().slot(t), u);
                    }
                    lemma_slot_other(mL, t, SlotModel { periodic: Some(period), ..mL.slot(t) }, t);
                }
            },
            _ => {},
        }
        let ghost m2 = self.model();

        // Install the control block; its page was grown at allocation.
        self.store_task(task_id, task);
        proof {
            assert forall|u: int| 0 <= u && u != t && m2.page_installed(u)
                implies self.model().page_installed(u) && self.model().slot(u) == m2.slot(u) by {
                lemma_slot_other(m2, t, self.model().slot(t), u);
            }
        }
        let ghost m3 = self.model();
        let ghost m3_ids = self.ids@;

        // Drain the edges that were parked waiting for the new name.
        let ghost u0 = self.unresolved@;
        proof {
            assert(u0.take(u0.len() as int) =~= u0);
        }
        let mut register_these: Vec<(ChannelId, TaskId)> = Vec::new();
        let mut remaining: Vec<(String, TaskId, ChannelId)> = Vec::new();
        while self.unresolved.len() > 0
            invariant
                self.unresolved@.len() <= u0.len(),
                self.unresolved@ == u0.take(self.unresolved@.len() as int),
                name@ == task.name_spec(),
                self.max_id == m3.max_id,
                self.stop == m3.stop,
                self.time_us == m3.time_us,
                self.ids@ == m3_ids,
                ids_map(m3_ids) == m3.ids,
                self.model().pages == m3.pages,
                self.wf(),
                forall|k: int|
                    self.unresolved@.len() <= k < u0.len() ==> {
                        if (#[trigger] u0[k]).0@ == name@ {
                            register_these@.contains((u0[k].2, u0[k].1))
                        } else {
                            remaining@.contains(u0[k])
                        }
                    },
                drained_from(register_these@, u0, name@),
                kept_from(remaining@, u0, name@),
            decreases self.unresolved@.len(),
        {
            let ghost rt_pre = register_these@;
            let ghost rem_pre = remaining@;
            let ghost len_pre = self.unresolved@.len() as int;
            let e = match self.unresolved.pop() {
                Some(x) => x,
                None => unreached(),
            };
            proof {
                assert(u0.take(len_pre)[len_pre - 1] == u0[len_pre - 1]);
                assert(self.unresolved@ =~= u0.take(len_pre - 1));
            }
            let ghost ev = (e.0@, e.1, e.2);
            if e.0 == name {
                register_these.push((e.2, e.1));
            } else {
                remaining.push(e);
            }
            proof {
                assert(drained_from(register_these@, u0, name@)) by {
                assert forall|k: int|
                    0 <= k < register_these@.len() implies exists|j: int|
                        0 <= j < u0.len() && u0[j].0@ == name@
                        && (#[trigger] register_these@[k]) == (u0[j].2, u0[j].1) by {
                    if k < rt_pre.len() {
                        assert(register_these@[k] == rt_pre[k]);
                        let j = choose|j: int|
                            0 <= j < u0.len() && u0[j].0@ == name@
                            && rt_pre[k] == (u0[j].2, u0[j].1);
                        assert(u0[j].0@ == name@ && register_these@[k] == (u0[j].2, u0[j].1));
                    } else {
                        assert(ev.0 == name@);
                        assert(register_these@[k] == (u0[len_pre - 1].2, u0[len_pre - 1].1));
                        assert(u0[len_pre - 1].0@ == name@);
                    }
                }
                }
                assert(kept_from(remaining@, u0, name@)) by {
                assert forall|k: int|
                    0 <= k < remaining@.len() implies exists|j: int|
                        0 <= j < u0.len() && u0[j].0@ != name@
                        && (#[trigger] remaining@[k]) == u0[j] by {
                    if k < rem_pre.len() {
                        assert(remaining@[k] == rem_pre[k]);
                        let j = choose|j: int|
                            0 <= j < u0.len() && u0[j].0@ != name@ && rem_pre[k] == u0[j];
                        assert(u0[j].0@ != name@ && remaining@[k] == u0[j]);
                    } else {
                        assert(remaining@[k] == u0[len_pre - 1]);
                        assert(u0[len_pre - 1].0@ != name@);
                    }
                }
                }
                assert forall|k: int|
                    self.unresolved@.len() <= k < u0.len() implies ({
                        if (#[trigger] u0[k]).0@ == name@ {
                            register_these@.contains((u0[k].2, u0[k].1))
                        } else {
                            remaining@.contains(u0[k])
                        }
                    }) by {
                    if k == len_pre - 1 {
                        if u0[k].0@ == name@ {
                            assert(register_these@[register_these@.len() - 1]
                                == (u0[k].2, u0[k].1));
                        } else {
                            assert(remaining@[remaining@.len() - 1] == u0[k]);
                        }
                    } else {
                        if u0[k].0@ == name@ {
                            let m = choose|m: int|
                                0 <= m < rt_pre.len() && rt_pre[m] == (u0[k].2, u0[k].1);
                            assert(register_these@[m] == (u0[k].2, u0[k].1));
                        } else {
                            let m = choose|m: int|
                                0 <= m < rem_pre.len() && rem_pre[m] == u0[k];
                            assert(remaining@[m] == u0[k]);
                        }
                    }
                }
            }
        }
        let ghost rem = remaining@;
        self.unresolved = remaining;
        let ghost m4 = self.model();
        let ghost rt = register_these@;
        self.register_dependents(task_id, register_these);
        proof {
            let post = self.model();
            let tid = task_id;
            assert(m4.unresolved == rem.map_values(
                |e: (String, TaskId, ChannelId)| (e.0@, e.1, e.2),
            ));
            assert(m4.pages == m3.pages);
            assert(m4.slot(t) == m3.slot(t));
            assert(m4.page_installed(t));
            lemma_page_step(t);
            vstd::arithmetic::div_mod::lemma_mod_bound(t, PAGE_SIZE as int);
            if rt.len() > 0 {
                lemma_slot_other(
                    m4,
                    t,
                    SlotModel {
                        has_dependents: true,
                        dependents: m4.slot(t).dependents + rt,
                        ..m4.slot(t)
                    },
                    t,
                );
            }
            assert forall|u: int| 0 <= u && u != t && m4.page_installed(u)
                implies post.page_installed(u) && post.slot(u) == m4.slot(u) by {
                if rt.len() > 0 {
                    lemma_slot_other(
                        m4,
                        t,
                        SlotModel {
                            has_dependents: true,
                            dependents: m4.slot(t).dependents + rt,
                            ..m4.slot(t)
                        },
                        u,
                    );
                }
            }
            assert(post.slot(t).dependents.len() >= m3.slot(t).dependents.len());
            assert(post.slot(t).installed && post.slot(t).state == TaskState::Execute);

            // drained edges are wired
            assert forall|i: int|
                0 <= i < pre.unresolved.len() && (#[trigger] pre.unresolved[i]).0
                    == task.name_spec() implies post.slot(t).dependents.contains(
                    (pre.unresolved[i].2, pre.unresolved[i].1),
                ) by {
                assert(m3.unresolved[i] == pre.unresolved[i]);
                assert(m3.unresolved[i] == (u0[i].0@, u0[i].1, u0[i].2));
                assert(u0[i].0@ == name@);
                let k = choose|k: int| 0 <= k < rt.len() && rt[k] == (u0[i].2, u0[i].1);
                let d = post.slot(t).dependents;
                assert(d[m4.slot(t).dependents.len() + k] == (u0[i].2, u0[i].1));
            }

            // declared inputs stay wired or parked
            if rule is OnMessage {
                assert forall|i: int|
                    0 <= i < task.input_count_spec() && (#[trigger] task.input_spec(i)) is Some
                        implies ({
                        let ch = task.input_spec(i)->Some_0.0;
                        let sname = task.input_spec(i)->Some_0.1;
                        let ids1 = pre.ids.insert(task.name_spec(), tid);
                        if ids1.contains_key(sname) {
                            post.slot(ids1[sname].0 as int).dependents.contains((ch, tid))
                        } else {
                            post.unresolved.contains((sname, tid, ch))
                        }
                    }) by {
                    let ch = task.input_spec(i)->Some_0.0;
                    let sname = task.input_spec(i)->Some_0.1;
                    let ids1 = pre.ids.insert(task.name_spec(), tid);
                    if ids1.contains_key(sname) {
                        let u = ids1[sname].0 as int;
                        let dmid = m2.slot(u).dependents;
                        let k = choose|k: int| 0 <= k < dmid.len() && dmid[k] == (ch, tid);
                        assert(post.slot(u).dependents[k] == (ch, tid));
                    } else {
                        assert(sname != task.name_spec());
                        let k = choose|k: int|
                            0 <= k < m2.unresolved.len() && m2.unresolved[k] == (sname, tid, ch);
                        assert(m3.unresolved == m2.unresolved);
                        assert((u0[k].0@, u0[k].1, u0[k].2) == (sname, tid, ch));
                        let mm = choose|mm: int|
                            0 <= mm < rem.len() && u0[k].0@ != name@ && rem[mm] == u0[k];
                        assert(post.unresolved[mm] == (sname, tid, ch));
                    }
                }
            }

            // nothing waits for this name; other parked edges survive
            assert forall|i: int| 0 <= i < post.unresolved.len()
                implies (#[trigger] post.unresolved[i]).0 != task.name_spec() by {
                assert(kept_from(rem, u0, name@));
                assert(rem[i] == rem[i]);
                let j = choose|j: int|
                    0 <= j < u0.len() && u0[j].0@ != name@ && rem[i] == u0[j];
                assert(post.unresolved[i] == (rem[i].0@, rem[i].1, rem[i].2));
            }
            assert forall|i: int|
                0 <= i < pre.unresolved.len() && (#[trigger] pre.unresolved[i]).0
                    != task.name_spec() implies post.unresolved.contains(pre.unresolved[i]) by {
                assert(m3.unresolved[i] == pre.unresolved[i]);
                assert((u0[i].0@, u0[i].1, u0[i].2) == pre.unresolved[i]);
                let mm = choose|mm: int| 0 <= mm < rem.len() && rem[mm] == u0[i];
                assert(post.unresolved[mm] == pre.unresolved[i]);
            }
            assert forall|i: int| 0 <= i < post.unresolved.len()
                implies pre.unresolved.contains(#[trigger] post.unresolved[i])
                    || post.unresolved[i].1 == tid by {
                let j = choose|j: int|
                    0 <= j < u0.len() && u0[j].0@ != name@ && rem[i] == u0[j];
                assert(post.unresolved[i] == (u0[j].0@, u0[j].1, u0[j].2));
                if j < pre.unresolved.len() {
                    assert(m3.unresolved[j] == pre.unresolved[j]);
                    assert(pre.unresolved[j] == post.unresolved[i]);
                } else {
                    assert(m3.unresolved[j].1 == tid);
                }
            }

            // already-registered slots at most gained edges to the new task
            assert forall|u: int|
                1 <= u < pre.max_id && u != t && pre.page_installed(u)
                implies post.page_installed(u)
                    && (#[trigger] post.slot(u)).installed == pre.slot(u).installed
                    && post.slot(u).state == pre.slot(u).state
                    && post.slot(u).conditional_exec == pre.slot(u).conditional_exec
                    && post.slot(u).periodic == pre.slot(u).periodic
                    && post.slot(u).next_deadline_us == pre.slot(u).next_deadline_us
                    && post.slot(u).last_seqnos == pre.slot(u).last_seqnos
                    && post.slot(u).pending_wake == pre.slot(u).pending_wake
                    && post.slot(u).dependents.len() >= pre.slot(u).dependents.len()
                    && (forall|k: int|
                        0 <= k < pre.slot(u).dependents.len() ==> post.slot(u).dependents[k]
                            == pre.slot(u).dependents[k])
                    && (forall|k: int|
                        pre.slot(u).dependents.len() <= k < post.slot(u).dependents.len()
                            ==> (#[trigger] post.slot(u).dependents[k]).1 == tid) by {
                assert(m1.page_installed(u) && m1.slot(u) == pre.slot(u));
                assert(m2.page_installed(u));
                assert(m3.slot(u) == m2.slot(u));
                assert(post.slot(u) == m4.slot(u));
            }
            assert(post.ids == pre.ids.insert(task.name_spec(), tid));
        }
        Ok(task_id)
    }
}


/// How a slot may change across one whole sweep: one `eval` step, after
/// which the sweep's wake pass may set its pending flag.
pub open spec fn sweep_slot_ok(pre: SlotModel, post: SlotModel, now: usize) -> bool {
    exists|mid: SlotModel|
        #[trigger] slot_step_ok(pre, mid, now) && (post == mid || post == SlotModel {
            pending_wake: true,
            ..mid
        })
}

/// Whether the sweep of a registry with this `max_id` visits page `pp`,
/// slot `ss`.
pub open spec fn swept(max_id: int, pp: int, ss: int) -> bool {
    pp < page_of(max_id) || (pp == page_of(max_id) && ss <= slot_of(max_id))
}

impl<T: Task> SchedulerData<T> {
    /// One worker pass: step the state machine of every installed task
    /// once, then wake every dependent of a task whose output advanced.
    /// Returns whether the stop flag was observed set.
    #[verifier::rlimit(100)]
    pub fn sweep(&mut self, _worker_id: usize, private: &mut Private) -> (stopped: bool)
        requires
            old(self).wf(),
        ensures
            final(self).wf(),
            final(private).to_trigger@.len() == 0,
            stopped == old(self).model().stop,
            final(self).max_id == old(self).max_id,
            final(self).stop == old(self).stop,
            final(self).time_us == old(self).time_us,
            final(self).ids == old(self).ids,
            final(self).unresolved == old(self).unresolved,
            final(self).model().pages.len() == old(self).model().pages.len(),
            forall|pp: int|
                0 <= pp < old(self).model().pages.len()
                    ==> ((#[trigger] final(self).model().pages[pp]) is Some
                    <==> old(self).model().pages[pp] is Some),
            forall|pp: int, ss: int|
                0 <= pp < old(self).model().pages.len() && old(self).model().pages[pp] is Some
                    && 0 <= ss < PAGE_SIZE && swept(old(self).max_id as int, pp, ss)
                    ==> sweep_slot_ok(
                    #[trigger] old(self).model().pages[pp]->Some_0[ss],
                    final(self).model().pages[pp]->Some_0[ss],
                    old(self).time_us,
                ),
            forall|pp: int, ss: int|
                0 <= pp < old(self).model().pages.len() && old(self).model().pages[pp] is Some
                    && 0 <= ss < PAGE_SIZE && !swept(old(self).max_id as int, pp, ss) ==> {
                    let pre = #[trigger] old(self).model().pages[pp]->Some_0[ss];
                    let post = final(self).model().pages[pp]->Some_0[ss];
                    post == pre || post == SlotModel { pending_wake: true, ..pre }
                },
            // a producer's observed advance wakes every registered
            // dependent before the sweep ends
            forall|pp: int, ss: int, j: int|
                #![trigger old(self).model().pages[pp]->Some_0[ss].dependents[j]]
                {
                    let pre = old(self).model().pages[pp]->Some_0[ss];
                    let post = final(self).model().pages[pp]->Some_0[ss];
                    &&& 0 <= pp < old(self).model().pages.len()
                    &&& old(self).model().pages[pp] is Some
                    &&& 0 <= ss < PAGE_SIZE
                    &&& swept(old(self).max_id as int, pp, ss)
                    &&& pre.has_dependents
                    &&& 0 <= j < pre.dependents.len()
                    &&& pre.dependents[j].0.sender_id.0 < pre.last_seqnos.len()
                    &&& post.last_seqnos[pre.dependents[j].0.sender_id.0 as int]
                        != pre.last_seqnos[pre.dependents[j].0.sender_id.0 as int]
                    &&& final(self).model().page_installed(pre.dependents[j].1.0 as int)
                } ==> final(self).model().slot(
                    old(self).model().pages[pp]->Some_0[ss].dependents[j].1.0 as int,
                ).pending_wake,
    {
        let max_id = self.max_id;
        private.ensure_size(max_id);
        let now = self.time_us;
        let (l1_last, l2_last) = position(max_id);
        proof {
            lemma_page_step(max_id as int);
            lemma_div_is_ordered(max_id as int - 1, max_id as int, PAGE_SIZE as int);
        }
        let ghost m0 = self.model();
        let mut p: usize = 0;
        while p <= l1_last
            invariant
                p <= l1_last + 1,
                l1_last == page_of(max_id as int),
                l2_last == slot_of(max_id as int),
                l2_last < PAGE_SIZE,
                max_id == self.max_id,
                now == self.time_us,
                m0 == old(self).model(),
                old(self).wf(),
                l1_last < m0.pages.len(),
                forall|pp: int| 0 <= pp <= l1_last ==> (#[trigger] m0.pages[pp]) is Some,
                self.wf(),
                self.max_id == old(self).max_id,
                self.stop == old(self).stop,
                self.time_us == old(self).time_us,
                self.ids == old(self).ids,
                self.unresolved == old(self).unresolved,
                self.model().pages.len() == m0.pages.len(),
                forall|pp: int|
                    0 <= pp < m0.pages.len() && !(pp < p || (pp == l1_last && p == l1_last + 1))
                        ==> #[trigger] self.model().pages[pp] == m0.pages[pp],
                forall|pp: int|
                    0 <= pp < m0.pages.len() ==> ((#[trigger] self.model().pages[pp]) is Some
                        <==> m0.pages[pp] is Some),
                forall|pp: int, ss: int|
                    0 <= pp < p && pp < l1_last && m0.pages[pp] is Some && 0 <= ss < PAGE_SIZE
                        ==> slot_step_ok(
                        #[trigger] m0.pages[pp]->Some_0[ss],
                        self.model().pages[pp]->Some_0[ss],
                        now,
                    ),
                p == l1_last + 1 ==> forall|ss: int|
                    0 <= ss <= l2_last ==> slot_step_ok(
                        #[trigger] m0.pages[l1_last as int]->Some_0[ss],
                        self.model().pages[l1_last as int]->Some_0[ss],
                        now,
                    ),
                p == l1_last + 1 ==> forall|ss: int|
                    l2_last < ss < PAGE_SIZE
                        ==> #[trigger] self.model().pages[l1_last as int]->Some_0[ss]
                        == m0.pages[l1_last as int]->Some_0[ss],
                private.to_trigger@.len() >= old(private).to_trigger@.len(),
                forall|k: int|
                    0 <= k < old(private).to_trigger@.len() ==> private.to_trigger@[k]
                        == old(private).to_trigger@[k],
                forall|pp: int, ss: int, j: int|
                    #![trigger m0.pages[pp]->Some_0[ss].dependents[j]]
                    {
                        let pre = m0.pages[pp]->Some_0[ss];
                        let post = self.model().pages[pp]->Some_0[ss];
                        &&& 0 <= pp < m0.pages.len()
                        &&& m0.pages[pp] is Some
                        &&& 0 <= ss < PAGE_SIZE
                        &&& (pp < p && pp < l1_last) || (p == l1_last + 1 && pp == l1_last
                            && ss <= l2_last)
                        &&& pre.has_dependents
                        &&& 0 <= j < pre.dependents.len()
                        &&& pre.dependents[j].0.sender_id.0 < pre.last_seqnos.len()
                        &&& post.last_seqnos[pre.dependents[j].0.sender_id.0 as int]
                            != pre.last_seqnos[pre.dependents[j].0.sender_id.0 as int]
                    } ==> private.to_trigger@.contains(m0.pages[pp]->Some_0[ss].dependents[j].1),
            decreases l1_last + 1 - p,
        {
            let l2_max_idx = if p < l1_last {
                PAGE_SIZE - 1
            } else {
                l2_last
            };
            let ghost m_it = self.model();
            let ghost trig_pre = private.to_trigger@;
            proof {
                assert(self.model().pages[p as int] is Some);
                assert(self.model().pages[p as int]->Some_0.len() == PAGE_SIZE);
                assert(self.l1@[p as int] is Some);
            }
            let ghost pre_l1 = self.l1@;
            match self.l1[p].as_mut() {
                Some(pg) => {
                    pg.eval(l2_max_idx, _worker_id, private, now);
                },
                None => {
                    proof {
                        assert(false);
                    }
                },
            }
            proof {
                assert(self.l1@ == pre_l1.update(p as int, self.l1@[p as int]));
                assert forall|pp: int| 0 <= pp < m0.pages.len() && pp != p
                    implies #[trigger] self.model().pages[pp] == m_it.pages[pp] by {
                    assert(self.l1@[pp] == pre_l1[pp]);
                }
                assert(self.model().pages[p as int] is Some);
                assert(self.model().pages[p as int]->Some_0
                    == self.l1@[p as int]->Some_0@);
                assert(m_it.pages[p as int]->Some_0 == pre_l1[p as int]->Some_0@);
                assert forall|ss: int| 0 <= ss < PAGE_SIZE
                    implies #[trigger] self.model().pages[p as int]->Some_0[ss].installed
                        == m_it.pages[p as int]->Some_0[ss].installed by {
                    if ss <= l2_max_idx {
                        assert(slot_step_ok(
                            m_it.pages[p as int]->Some_0[ss],
                            self.model().pages[p as int]->Some_0[ss],
                            now,
                        ));
                    }
                }
                assert(self.wf()) by {
                    assert forall|p2: int, s2: int|
                        0 <= p2 < self.model().pages.len() && self.model().pages[p2] is Some
                            && 0 <= s2 < PAGE_SIZE
                            && p2 * (PAGE_SIZE as int) + s2 >= self.model().max_id
                        implies !(#[trigger] self.model().pages[p2]->Some_0[s2]).installed by {
                        if p2 != p {
                            assert(self.model().pages[p2] == m_it.pages[p2]);
                        }
                    }
                }
                // the evaluated page's slots stepped once; untouched above the cut
                assert forall|pp: int, ss: int, j: int|
                    #![trigger m0.pages[pp]->Some_0[ss].dependents[j]]
                    ({
                        let pre = m0.pages[pp]->Some_0[ss];
                        let post = self.model().pages[pp]->Some_0[ss];
                        &&& 0 <= pp < m0.pages.len()
                        &&& m0.pages[pp] is Some
                        &&& 0 <= ss < PAGE_SIZE
                        &&& (pp < p + 1 && pp < l1_last) || (p + 1 == l1_last + 1 && pp == l1_last
                            && ss <= l2_last)
                        &&& pre.has_dependents
                        &&& 0 <= j < pre.dependents.len()
                        &&& pre.dependents[j].0.sender_id.0 < pre.last_seqnos.len()
                        &&& post.last_seqnos[pre.dependents[j].0.sender_id.0 as int]
                            != pre.last_seqnos[pre.dependents[j].0.sender_id.0 as int]
                    }) implies private.to_trigger@.contains(
                        m0.pages[pp]->Some_0[ss].dependents[j].1,
                    ) by {
                    let d = m0.pages[pp]->Some_0[ss].dependents[j].1;
                    if pp == p && (p < l1_last || (p == l1_last && ss <= l2_max_idx)) {
                        assert(m_it.pages[pp]->Some_0[ss] == m0.pages[pp]->Some_0[ss]);
                    } else {
                        assert(self.model().pages[pp] == m_it.pages[pp]);
                        let m = choose|m: int|
                            0 <= m < trig_pre.len() && trig_pre[m] == d;
                        assert(private.to_trigger@[m] == d);
                    }
                }
            }
            p += 1;
        }

        // wake pass: set the pending flag of every collected dependent
        let ghost m_mid = self.model();
        let ghost trig = private.to_trigger@;
        let mut k: usize = 0;
        while k < private.to_trigger.len()
            invariant
                k <= trig.len(),
                private.to_trigger@ == trig,
                self.wf(),
                old(self).wf(),
                self.max_id == old(self).max_id,
                self.stop == old(self).stop,
                self.time_us == old(self).time_us,
                self.ids == old(self).ids,
                self.unresolved == old(self).unresolved,
                self.model().pages.len() == m_mid.pages.len(),
                forall|pp: int|
                    0 <= pp < m_mid.pages.len() ==> ((#[trigger] self.model().pages[pp]) is Some
                        <==> m_mid.pages[pp] is Some),
                forall|pp: int, ss: int|
                    0 <= pp < m_mid.pages.len() && m_mid.pages[pp] is Some && 0 <= ss < PAGE_SIZE
                        ==> {
                        let pre = #[trigger] m_mid.pages[pp]->Some_0[ss];
                        let post = self.model().pages[pp]->Some_0[ss];
                        post == pre || post == SlotModel { pending_wake: true, ..pre }
                    },
                forall|m: int|
                    0 <= m < k && self.model().page_installed(trig[m].0 as int)
                        ==> self.model().slot(#[trigger] trig[m].0 as int).pending_wake,
            decreases trig.len() - k,
        {
            let tid = private.to_trigger[k];
            let ghost m_k = self.model();
            self.schedule_exec(&tid);
            proof {
                let d = trig[k as int].0 as int;
                vstd::arithmetic::div_mod::lemma_mod_bound(d, PAGE_SIZE as int);
                if m_k.page_installed(d) {
                    lemma_slot_other(
                        m_k,
                        d,
                        SlotModel { pending_wake: true, ..m_k.slot(d) },
                        d,
                    );
                }
                assert forall|pp: int, ss: int|
                    0 <= pp < m_mid.pages.len() && m_mid.pages[pp] is Some && 0 <= ss < PAGE_SIZE
                        implies {
                        let pre = #[trigger] m_mid.pages[pp]->Some_0[ss];
                        let post = self.model().pages[pp]->Some_0[ss];
                        post == pre || post == SlotModel { pending_wake: true, ..pre }
                    } by {
                    if m_k.page_installed(d) && pp == page_of(d) && ss == slot_of(d) {
                        assert(self.model().pages[pp]->Some_0[ss] == SlotModel {
                            pending_wake: true,
                            ..m_k.pages[pp]->Some_0[ss]
                        });
                    } else {
                        if m_k.page_installed(d) {
                            lemma_slot_other(
                                m_k,
                                d,
                                SlotModel { pending_wake: true, ..m_k.slot(d) },
                                pp * (PAGE_SIZE as int) + ss,
                            );
                            assert(self.model().pages[pp] == m_k.pages[pp]
                                || pp == page_of(d));
                            if pp == page_of(d) {
                                assert(self.model().pages[pp]->Some_0[ss]
                                    == m_k.pages[pp]->Some_0[ss]);
                            }
                        } else {
                            assert(self.model() == m_k);
                        }
                    }
                }
                assert forall|m: int|
                    0 <= m < k + 1 && self.model().page_installed(trig[m].0 as int)
                        implies self.model().slot(#[trigger] trig[m].0 as int).pending_wake by {
                    let dm = trig[m].0 as int;
                    vstd::arithmetic::div_mod::lemma_mod_bound(dm, PAGE_SIZE as int);
                    if m < k {
                        assert(m_k.page_installed(dm));
                        assert(m_k.slot(dm).pending_wake);
                        let pre = m_mid.pages[page_of(dm)]->Some_0[slot_of(dm)];
                        assert(self.model().slot(dm) == m_k.slot(dm) || self.model().slot(dm)
                            == SlotModel { pending_wake: true, ..m_k.slot(dm) });
                    }
                }
            }
            k += 1;
        }
        private.clear();
        proof {
            let mfin = self.model();
            assert forall|pp: int, ss: int|
                0 <= pp < m0.pages.len() && m0.pages[pp] is Some && 0 <= ss < PAGE_SIZE
                implies {
                    let pre = #[trigger] m0.pages[pp]->Some_0[ss];
                    let mid = m_mid.pages[pp]->Some_0[ss];
                    let post = mfin.pages[pp]->Some_0[ss];
                    &&& (swept(max_id as int, pp, ss) ==> sweep_slot_ok(pre, post, now))
                    &&& (!swept(max_id as int, pp, ss) ==> post == pre || post == SlotModel {
                        pending_wake: true,
                        ..pre
                    })
                    &&& post.last_seqnos == mid.last_seqnos
                } by {
                let pre = m0.pages[pp]->Some_0[ss];
                let mid = m_mid.pages[pp]->Some_0[ss];
                let post = mfin.pages[pp]->Some_0[ss];
                if swept(max_id as int, pp, ss) {
                    assert(slot_step_ok(pre, mid, now));
                    assert(post == mid || post == SlotModel { pending_wake: true, ..mid });
                    assert(sweep_slot_ok(pre, post, now));
                } else {
                    assert(mid == pre);
                    assert(post == mid || post == SlotModel { pending_wake: true, ..mid });
                }
                assert(post == mid || post == SlotModel { pending_wake: true, ..mid });
            }
            assert forall|pp: int, ss: int, j: int|
                #![trigger m0.pages[pp]->Some_0[ss].dependents[j]]
                ({
                    let pre = m0.pages[pp]->Some_0[ss];
                    let post = mfin.pages[pp]->Some_0[ss];
                    &&& 0 <= pp < m0.pages.len()
                    &&& m0.pages[pp] is Some
                    &&& 0 <= ss < PAGE_SIZE
                    &&& swept(max_id as int, pp, ss)
                    &&& pre.has_dependents
                    &&& 0 <= j < pre.dependents.len()
                    &&& pre.dependents[j].0.sender_id.0 < pre.last_seqnos.len()
                    &&& post.last_seqnos[pre.dependents[j].0.sender_id.0 as int]
                        != pre.last_seqnos[pre.dependents[j].0.sender_id.0 as int]
                    &&& mfin.page_installed(pre.dependents[j].1.0 as int)
                }) implies mfin.slot(
                    m0.pages[pp]->Some_0[ss].dependents[j].1.0 as int,
                ).pending_wake by {
                let pre = m0.pages[pp]->Some_0[ss];
                let d = pre.dependents[j].1;
                let mid = m_mid.pages[pp]->Some_0[ss];
                assert(mfin.pages[pp]->Some_0[ss].last_seqnos == mid.last_seqnos);
                assert(private.to_trigger@.len() == 0);
                assert(trig.contains(d));
                let m = choose|m: int| 0 <= m < trig.len() && trig[m] == d;
            }
        }
        self.stop
    }
}

/// Every handed-out task id lies on an installed page, and its slot index
/// is in range: a task id never points into a missing page.
pub proof fn lemma_registry_coverage<T: Task>(s: SchedulerData<T>, t: int)
    requires
        s.wf(),
        1 <= t < s.model().max_id,
    ensures
        s.model().page_installed(t),
        0 <= slot_of(t) < PAGE_SIZE,
        s.model().pages[page_of(t)]->Some_0.len() == PAGE_SIZE,
{
    lemma_div_is_ordered(t, s.model().max_id - 1, PAGE_SIZE as int);
    vstd::arithmetic::div_mod::lemma_mod_bound(t, PAGE_SIZE as int);
}

/// Waking a task twice with nothing in between has the same effect as
/// waking it once.
pub proof fn lemma_wake_idempotent(m: SchedModel, t: int)
    requires
        m.page_installed(t) ==> m.pages[page_of(t)]->Some_0.len() == PAGE_SIZE,
    ensures
        wake_model(wake_model(m, t), t) == wake_model(m, t),
{
    vstd::arithmetic::div_mod::lemma_mod_bound(t, PAGE_SIZE as int);
    let m1 = wake_model(m, t);
    if m.page_installed(t) && 0 <= slot_of(t) < PAGE_SIZE {
        lemma_slot_other(m, t, SlotModel { pending_wake: true, ..m.slot(t) }, t);
        assert(m1.slot(t) == SlotModel { pending_wake: true, ..m.slot(t) });
        assert(m1.page_installed(t));
        assert(wake_model(m1, t).pages[page_of(t)]->Some_0 =~= m1.pages[page_of(t)]->Some_0);
        assert(wake_model(m1, t).pages =~= m1.pages);
        assert(wake_model(m1, t) =~~= m1);
    }
}


} // verus!
