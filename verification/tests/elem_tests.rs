use paged_scheduler::elem::source::{self, Source, SourceWrap};
use paged_scheduler::scheduler::data::{self, SchedulerData};
use paged_scheduler::scheduler::prv::Private;
use paged_scheduler::{ChannelWrapper, Message, Schedule, SchedulingRule};
use lossyq::spsc::Sender;

struct Gen {
    next: u64,
}

impl Source for Gen {
    type OutputType = u64;

    fn process(&mut self, output: &mut Sender<Message<u64>>) -> Schedule {
        let v = self.next;
        output.put(|slot| *slot = Some(Message::Value(v)));
        self.next += 1;
        Schedule::Loop
    }
}

#[test]
fn source_emits_observable_messages() {
    let mut sched: SchedulerData<SourceWrap<Gen>> = data::new();
    let (src, out) = source::new("gen", 8, Gen { next: 1 });
    sched.add_task(src, SchedulingRule::Loop).unwrap();
    let mut prv = Private::new();
    for _ in 0..5 {
        sched.sweep(0, &mut prv);
    }
    match out {
        ChannelWrapper::SenderNotConnected(_, mut rx, name) => {
            assert_eq!(name.0, "gen");
            let mut got = Vec::new();
            for m in rx.iter() {
                if let Message::Value(v) = m {
                    got.push(v);
                }
            }
            assert!(!got.is_empty());
            assert!(got.contains(&1));
        }
        _ => panic!("expected the receiving half of the output channel"),
    }
}

#[test]
fn source_stops_itself() {
    struct Once {
        fired: bool,
    }
    impl Source for Once {
        type OutputType = u64;
        fn process(&mut self, output: &mut Sender<Message<u64>>) -> Schedule {
            if self.fired {
                return Schedule::Stop;
            }
            self.fired = true;
            output.put(|slot| *slot = Some(Message::Value(9)));
            Schedule::Stop
        }
    }
    let mut sched: SchedulerData<SourceWrap<Once>> = data::new();
    let (src, out) = source::new("once", 8, Once { fired: false });
    sched.add_task(src, SchedulingRule::Loop).unwrap();
    let mut prv = Private::new();
    for _ in 0..10 {
        sched.sweep(0, &mut prv);
    }
    match out {
        ChannelWrapper::SenderNotConnected(_, mut rx, _) => {
            let mut n = 0usize;
            for m in rx.iter() {
                if let Message::Value(_) = m {
                    n += 1;
                }
            }
            // the task moved to `Stop` after its first run and never ran again
            assert_eq!(n, 1);
        }
        _ => panic!("expected the receiving half of the output channel"),
    }
}
