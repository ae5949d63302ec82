use paged_scheduler::elem::scatter::{self, ScatterWrap, Scatter};
use paged_scheduler::scheduler::data::{self, SchedulerData};
use paged_scheduler::scheduler::page::{position, sat_add_usize, state_after_event};
use paged_scheduler::scheduler::prv::Private;
use paged_scheduler::{
    ChannelId, ChannelPosition, ChannelWrapper, DelayFromNowInUsec, Error, Event, Message,
    PeriodLengthInUsec, ReceiverChannelId, Schedule, SchedulingRule, SenderChannelId, SenderName,
    TaskId, TaskState,
};
use lossyq::spsc::{Receiver, Sender};
use std::sync::atomic::{AtomicUsize, Ordering};
use std::sync::Arc;

enum TestLogic {
    Emit { emitted: Arc<AtomicUsize> },
    Collect { received: Arc<AtomicUsize>, emitted: Arc<AtomicUsize> },
    Tick { runs: Arc<AtomicUsize> },
    Ext { runs: Arc<AtomicUsize> },
}

impl Scatter for TestLogic {
    type InputType = u64;
    type OutputType = u64;

    fn process(
        &mut self,
        input: &mut Receiver<Message<u64>>,
        output: &mut Vec<Sender<Message<u64>>>,
    ) -> Schedule {
        match self {
            TestLogic::Emit { emitted } => {
                output[0].put(|v| *v = Some(Message::Value(7)));
                emitted.fetch_add(1, Ordering::SeqCst);
                Schedule::Loop
            }
            TestLogic::Collect { received, emitted } => {
                // a sink must never run before its producer emitted
                assert!(emitted.load(Ordering::SeqCst) > 0);
                let mut n = 0usize;
                for _m in input.iter() {
                    n += 1;
                }
                let _ = n;
                received.fetch_add(1, Ordering::SeqCst);
                Schedule::OnMessage(
                    ChannelId {
                        sender_id: SenderChannelId(0),
                        receiver_id: ReceiverChannelId(0),
                    },
                    ChannelPosition(0),
                )
            }
            TestLogic::Tick { runs } => {
                runs.fetch_add(1, Ordering::SeqCst);
                Schedule::Loop
            }
            TestLogic::Ext { runs } => {
                runs.fetch_add(1, Ordering::SeqCst);
                Schedule::OnExternalEvent
            }
        }
    }
}

fn connected_scatter(
    name: &str,
    logic: TestLogic,
    n_outputs: usize,
) -> (ScatterWrap<TestLogic>, Vec<ChannelWrapper<u64>>) {
    let (mut wrap, outs) = scatter::new(name, 16, logic, n_outputs);
    let (_tx, rx) = lossyq::spsc::channel::<Message<u64>>(4);
    wrap.connect(
        ChannelId {
            sender_id: SenderChannelId(0),
            receiver_id: ReceiverChannelId(0),
        },
        SenderName(String::from("external")),
        rx,
    );
    (wrap, outs)
}

fn wire_sink(
    snk: &mut ScatterWrap<TestLogic>,
    producer_out: ChannelWrapper<u64>,
) {
    match producer_out {
        ChannelWrapper::SenderNotConnected(sid, rx, sname) => {
            snk.connect(
                ChannelId {
                    sender_id: sid,
                    receiver_id: ReceiverChannelId(0),
                },
                sname,
                rx,
            );
        }
        _ => panic!("expected an unconnected sender end"),
    }
}

#[test]
fn source_to_sink_delivery() {
    let emitted = Arc::new(AtomicUsize::new(0));
    let received = Arc::new(AtomicUsize::new(0));
    let mut sched: SchedulerData<ScatterWrap<TestLogic>> = data::new();
    let (src, mut src_outs) = connected_scatter(
        "src",
        TestLogic::Emit { emitted: emitted.clone() },
        1,
    );
    let (mut snk, _) = scatter::new(
        "snk",
        16,
        TestLogic::Collect { received: received.clone(), emitted: emitted.clone() },
        0,
    );
    wire_sink(&mut snk, src_outs.remove(0));
    sched.add_task(src, SchedulingRule::Loop).unwrap();
    sched.add_task(snk, SchedulingRule::OnMessage).unwrap();
    let mut prv = Private::new();
    for _ in 0..1000 {
        sched.sweep(0, &mut prv);
    }
    assert!(emitted.load(Ordering::SeqCst) > 0);
    assert!(received.load(Ordering::SeqCst) >= 1);
}

#[test]
fn out_of_order_registration_resolves_edges() {
    let emitted = Arc::new(AtomicUsize::new(0));
    let received = Arc::new(AtomicUsize::new(0));
    let mut sched: SchedulerData<ScatterWrap<TestLogic>> = data::new();
    let (src, mut src_outs) = connected_scatter(
        "src",
        TestLogic::Emit { emitted: emitted.clone() },
        1,
    );
    let (mut snk, _) = scatter::new(
        "snk",
        16,
        TestLogic::Collect { received: received.clone(), emitted },
        0,
    );
    wire_sink(&mut snk, src_outs.remove(0));
    // consumer first: its edge parks as unresolved under the producer name
    let snk_id = sched.add_task(snk, SchedulingRule::OnMessage).unwrap();
    assert_eq!(sched.unresolved.len(), 1);
    // then the producer: the parked edge must drain onto its slot
    let src_id = sched.add_task(src, SchedulingRule::Loop).unwrap();
    assert!(sched.unresolved.is_empty());
    let page = sched.l1[0].as_ref().unwrap();
    let deps = &page.slots[src_id.0].dependents;
    let expected = (
        ChannelId {
            sender_id: SenderChannelId(0),
            receiver_id: ReceiverChannelId(0),
        },
        snk_id,
    );
    assert!(deps.contains(&expected));
}

#[test]
fn periodic_task_respects_period() {
    let runs = Arc::new(AtomicUsize::new(0));
    let mut sched: SchedulerData<ScatterWrap<TestLogic>> = data::new();
    let (p, _) = connected_scatter("p", TestLogic::Tick { runs: runs.clone() }, 1);
    sched
        .add_task(p, SchedulingRule::Periodic(PeriodLengthInUsec(1000)))
        .unwrap();
    let mut prv = Private::new();
    // simulate a 100 ms window, ticking every 100 us
    let mut t = 0usize;
    while t < 100_000 {
        sched.set_time_us(t);
        sched.sweep(0, &mut prv);
        t += 100;
    }
    let n = runs.load(Ordering::SeqCst);
    assert!(n >= 80, "periodic task ran only {} times", n);
    assert!(n <= 101, "periodic task ran too often: {}", n);
}

#[test]
fn external_event_task_runs_once_per_notify() {
    let runs = Arc::new(AtomicUsize::new(0));
    let mut sched: SchedulerData<ScatterWrap<TestLogic>> = data::new();
    let (e, _) = connected_scatter("e", TestLogic::Ext { runs: runs.clone() }, 1);
    let e_id = sched.add_task(e, SchedulingRule::OnExternalEvent).unwrap();
    let mut prv = Private::new();
    for _ in 0..50 {
        sched.sweep(0, &mut prv);
    }
    assert_eq!(runs.load(Ordering::SeqCst), 0);
    sched.notify(&e_id).unwrap();
    sched.sweep(0, &mut prv);
    assert_eq!(runs.load(Ordering::SeqCst), 1);
    for _ in 0..50 {
        sched.sweep(0, &mut prv);
    }
    assert_eq!(runs.load(Ordering::SeqCst), 1);
}

#[test]
fn double_wake_runs_once() {
    let runs = Arc::new(AtomicUsize::new(0));
    let mut sched: SchedulerData<ScatterWrap<TestLogic>> = data::new();
    let (e, _) = connected_scatter("e", TestLogic::Ext { runs: runs.clone() }, 1);
    let e_id = sched.add_task(e, SchedulingRule::OnExternalEvent).unwrap();
    let mut prv = Private::new();
    sched.schedule_exec(&e_id);
    sched.schedule_exec(&e_id);
    sched.sweep(0, &mut prv);
    assert_eq!(runs.load(Ordering::SeqCst), 1);
}

#[test]
fn duplicate_name_is_refused() {
    let runs = Arc::new(AtomicUsize::new(0));
    let mut sched: SchedulerData<ScatterWrap<TestLogic>> = data::new();
    let (a, _) = connected_scatter("dup", TestLogic::Tick { runs: runs.clone() }, 1);
    let (b, _) = connected_scatter("dup", TestLogic::Tick { runs }, 1);
    sched.add_task(a, SchedulingRule::Loop).unwrap();
    let before = sched.max_id;
    let r = sched.add_task(b, SchedulingRule::Loop);
    assert!(matches!(r, Err(Error::AlreadyExists)));
    assert_eq!(sched.max_id, before);
}

#[test]
fn stop_semantics() {
    let runs = Arc::new(AtomicUsize::new(0));
    let mut sched: SchedulerData<ScatterWrap<TestLogic>> = data::new();
    let (e, _) = connected_scatter("e", TestLogic::Ext { runs }, 1);
    let e_id = sched.add_task(e, SchedulingRule::OnExternalEvent).unwrap();
    let mut prv = Private::new();
    assert!(!sched.sweep(0, &mut prv));
    sched.stop();
    let r = sched.notify(&e_id);
    assert!(matches!(r, Err(Error::Stopping)));
    assert!(sched.sweep(0, &mut prv));
}

#[test]
fn notify_unknown_id_is_refused() {
    let mut sched: SchedulerData<ScatterWrap<TestLogic>> = data::new();
    let r = sched.notify(&TaskId(999));
    assert!(matches!(r, Err(Error::NonExistent)));
}

#[test]
fn resolve_task_id_matches_registration() {
    let runs = Arc::new(AtomicUsize::new(0));
    let mut sched: SchedulerData<ScatterWrap<TestLogic>> = data::new();
    let (a, _) = connected_scatter("alpha", TestLogic::Tick { runs }, 1);
    let id = sched.add_task(a, SchedulingRule::Loop).unwrap();
    assert_eq!(sched.resolve_task_id(&String::from("alpha")), Some(id));
    assert_eq!(sched.resolve_task_id(&String::from("beta")), None);
    assert_eq!(id, TaskId(1));
}

#[test]
fn position_maps_ids_to_pages() {
    assert_eq!(position(0), (0, 0));
    assert_eq!(position(1023), (0, 1023));
    assert_eq!(position(1024), (1, 0));
    assert_eq!(position(2049), (2, 1));
}

#[test]
fn saturating_add_caps_at_max() {
    assert_eq!(sat_add_usize(3, 4), 7);
    assert_eq!(sat_add_usize(usize::MAX, 5), usize::MAX);
    assert_eq!(sat_add_usize(usize::MAX - 2, 2), usize::MAX);
}

#[test]
fn state_machine_transitions() {
    let s = state_after_event(Event::User(Schedule::Stop), 5);
    assert_eq!(s, TaskState::Stop);
    let s = state_after_event(
        Event::User(Schedule::DelayUsec(DelayFromNowInUsec { n_usec: 10 })),
        5,
    );
    assert_eq!(
        s,
        TaskState::TimeWait(paged_scheduler::AbsSchedulerTimeInUsec(15))
    );
    let s = state_after_event(Event::User(Schedule::Loop), 5);
    assert_eq!(s, TaskState::Execute);
    let s = state_after_event(Event::TimerExpired, 5);
    assert_eq!(s, TaskState::Execute);
}

#[test]
fn elapsed_time_converts_to_microseconds() {
    assert_eq!(data::elapsed_us(2, 3500), 2_000_003);
    assert_eq!(data::elapsed_us(0, 999), 0);
}

#[test]
fn initial_capacity_is_a_mebi_cell() {
    assert_eq!(data::initial_capacity(), 1024 * 1024);
}

#[test]
fn registration_crosses_page_boundary() {
    let runs = Arc::new(AtomicUsize::new(0));
    let mut sched: SchedulerData<ScatterWrap<TestLogic>> = data::new();
    let mut last = TaskId(0);
    for i in 0..1025 {
        let (task, _) = connected_scatter(
            &format!("task{}", i),
            TestLogic::Ext { runs: runs.clone() },
            1,
        );
        last = sched.add_task(task, SchedulingRule::OnExternalEvent).unwrap();
    }
    // ids are dense from 1, so the last one sits on the second page
    assert_eq!(last, TaskId(1025));
    assert_eq!(position(last.0), (1, 1));
    assert!(sched.l1[1].is_some());
    sched.notify(&last).unwrap();
    let mut prv = Private::new();
    sched.sweep(0, &mut prv);
    assert_eq!(runs.load(Ordering::SeqCst), 1);
}

#[test]
fn stats_printout_is_compiled_out() {
    let sched: SchedulerData<ScatterWrap<TestLogic>> = data::new();
    assert!(!sched.print_stats_enabled());
}
