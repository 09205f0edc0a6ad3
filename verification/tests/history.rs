use tehuti::buffer::Buffer;
use tehuti::error::Error;
use tehuti::replication::{DefaultReplicable, Replicable};
use tehuti::timeline::history::{HistoryBuffer, HistoryEvent, TickRange};
use tehuti::timeline::time::TimeStamp;
use tehuti::wire::{Applied, Bytes, Emitted};

#[derive(Debug, Default, Clone, PartialEq, Eq)]
struct Input {
    run: bool,
    jump: bool,
}

impl DefaultReplicable for Input {
    fn blank() {}

    fn default_is_blank(_: Self) {}
}

impl Replicable for Input {
    type Model = ();

    fn model(self) {}

    fn emit(self) -> Emitted {
        unreachable!()
    }

    fn parse(_: (), _: Bytes) -> Applied<()> {
        unreachable!()
    }

    fn parse_is_within(_: (), _: Bytes) {}

    fn collect_changes(&self, buffer: &mut Buffer) -> Result<(), Error> {
        self.run.collect_changes(buffer)?;
        self.jump.collect_changes(buffer)?;
        Ok(())
    }

    fn apply_changes(&mut self, buffer: &mut Buffer) -> Result<(), Error> {
        self.run.apply_changes(buffer)?;
        self.jump.apply_changes(buffer)?;
        Ok(())
    }
}

#[test]
fn test_history_buffer_set() {
    let mut buffer = HistoryBuffer::<i32>::with_capacity(3);
    assert_eq!(buffer.len(), 0);
    assert_eq!(buffer.now(), None);
    assert_eq!(buffer.past(), None);
    assert_eq!(buffer.iter(TickRange::full()), vec![]);

    buffer.set(TimeStamp::new(0), 0);
    assert_eq!(buffer.len(), 1);
    assert_eq!(buffer.now(), Some(TimeStamp::new(0)));
    assert_eq!(buffer.past(), Some(TimeStamp::new(0)));
    assert_eq!(
        buffer.iter(TickRange::full()),
        vec![(TimeStamp::new(0), &0)]
    );

    buffer.set(TimeStamp::new(1), 1);
    assert_eq!(buffer.len(), 2);
    assert_eq!(buffer.now(), Some(TimeStamp::new(1)));
    assert_eq!(buffer.past(), Some(TimeStamp::new(0)));
    assert_eq!(
        buffer.iter(TickRange::full()),
        vec![(TimeStamp::new(0), &0), (TimeStamp::new(1), &1)]
    );

    buffer.set(TimeStamp::new(2), 2);
    assert_eq!(buffer.len(), 3);
    assert_eq!(buffer.now(), Some(TimeStamp::new(2)));
    assert_eq!(buffer.past(), Some(TimeStamp::new(0)));
    assert_eq!(
        buffer.iter(TickRange::full()),
        vec![
            (TimeStamp::new(0), &0),
            (TimeStamp::new(1), &1),
            (TimeStamp::new(2), &2)
        ]
    );

    buffer.set(TimeStamp::new(3), 3);
    assert_eq!(buffer.len(), 3);
    assert_eq!(buffer.now(), Some(TimeStamp::new(3)));
    assert_eq!(buffer.past(), Some(TimeStamp::new(1)));
    assert_eq!(
        buffer.iter(TickRange::full()),
        vec![
            (TimeStamp::new(1), &1),
            (TimeStamp::new(2), &2),
            (TimeStamp::new(3), &3)
        ]
    );

    buffer.set(TimeStamp::new(6), 6);
    assert_eq!(buffer.len(), 3);
    assert_eq!(buffer.now(), Some(TimeStamp::new(6)));
    assert_eq!(buffer.past(), Some(TimeStamp::new(4)));
    assert_eq!(
        buffer.iter(TickRange::full()),
        vec![
            (TimeStamp::new(4), &3),
            (TimeStamp::new(5), &3),
            (TimeStamp::new(6), &6)
        ]
    );

    buffer.set(TimeStamp::new(5), 5);
    assert_eq!(buffer.len(), 3);
    assert_eq!(buffer.now(), Some(TimeStamp::new(6)));
    assert_eq!(buffer.past(), Some(TimeStamp::new(4)));
    assert_eq!(
        buffer.iter(TickRange::full()),
        vec![
            (TimeStamp::new(4), &3),
            (TimeStamp::new(5), &5),
            (TimeStamp::new(6), &6)
        ]
    );

    buffer.set(TimeStamp::new(4), 4);
    assert_eq!(buffer.len(), 3);
    assert_eq!(buffer.now(), Some(TimeStamp::new(6)));
    assert_eq!(buffer.past(), Some(TimeStamp::new(4)));
    assert_eq!(
        buffer.iter(TickRange::full()),
        vec![
            (TimeStamp::new(4), &4),
            (TimeStamp::new(5), &5),
            (TimeStamp::new(6), &6)
        ]
    );

    buffer.set(TimeStamp::new(0), 0);
    assert_eq!(buffer.len(), 3);
    assert_eq!(buffer.now(), Some(TimeStamp::new(2)));
    assert_eq!(buffer.past(), Some(TimeStamp::new(0)));
    assert_eq!(
        buffer.iter(TickRange::full()),
        vec![
            (TimeStamp::new(0), &0),
            (TimeStamp::new(1), &0),
            (TimeStamp::new(2), &0)
        ]
    );

    buffer.set(TimeStamp::new(2), 2);
    buffer.set(TimeStamp::new(5), 5);
    buffer.time_travel_to(TimeStamp::new(4) - 1);
    assert_eq!(buffer.len(), 1);
    assert_eq!(buffer.now(), Some(TimeStamp::new(3)));
    assert_eq!(buffer.past(), Some(TimeStamp::new(3)));
    assert_eq!(
        buffer.iter(TickRange::full()),
        vec![(TimeStamp::new(3), &2)]
    );
}

#[test]
fn test_history_buffer_clone_to() {
    let mut a = HistoryBuffer::with_capacity(4);
    a.set(TimeStamp::new(0), 0);
    a.set(TimeStamp::new(1), 1);
    a.set(TimeStamp::new(2), 2);

    let mut b = HistoryBuffer::with_capacity(4);
    a.clone_to(&mut b, TickRange::full());
    assert_eq!(a, b);

    let mut c = HistoryBuffer::with_capacity(4);
    a.clone_to(&mut c, TickRange::since(TimeStamp::new(1)));
    assert_eq!(
        c.iter(TickRange::full()),
        vec![(TimeStamp::new(1), &1), (TimeStamp::new(2), &2)]
    );

    let mut d = HistoryBuffer::with_capacity(4);
    a.clone_to(&mut d, TickRange::until(TimeStamp::new(1)));
    assert_eq!(
        d.iter(TickRange::full()),
        vec![(TimeStamp::new(0), &0), (TimeStamp::new(1), &1)]
    );

    let mut d = HistoryBuffer::with_capacity(4);
    d.set(TimeStamp::new(1), 42);
    d.clone_to(&mut a, TickRange::since(TimeStamp::new(2)));
    assert_eq!(
        a.iter(TickRange::full()),
        vec![
            (TimeStamp::new(0), &0),
            (TimeStamp::new(1), &1),
            (TimeStamp::new(2), &2)
        ]
    );
    d.clone_to(&mut a, TickRange::inclusive(TimeStamp::new(1), TimeStamp::new(1)));
    assert_eq!(
        a.iter(TickRange::full()),
        vec![
            (TimeStamp::new(0), &0),
            (TimeStamp::new(1), &42),
            (TimeStamp::new(2), &2)
        ]
    );
}

#[test]
fn test_history_buffer_divergence() {
    let mut a = HistoryBuffer::with_capacity(4);
    a.set(
        TimeStamp::new(0),
        Input {
            run: true,
            jump: false,
        },
    );
    a.set(
        TimeStamp::new(1),
        Input {
            run: false,
            jump: false,
        },
    );
    a.set(
        TimeStamp::new(2),
        Input {
            run: false,
            jump: true,
        },
    );
    a.set(
        TimeStamp::new(3),
        Input {
            run: false,
            jump: true,
        },
    );

    let mut b = HistoryBuffer::with_capacity(4);
    b.set(
        TimeStamp::new(0),
        Input {
            run: true,
            jump: false,
        },
    );
    b.set(
        TimeStamp::new(1),
        Input {
            run: false,
            jump: false,
        },
    );
    b.set(
        TimeStamp::new(2),
        Input {
            run: false,
            jump: false,
        },
    );
    b.set(
        TimeStamp::new(3),
        Input {
            run: false,
            jump: true,
        },
    );

    let divergence = a.divergence(&b).unwrap();
    assert_eq!(divergence, TimeStamp::new(2));

    a.time_travel_to(divergence - 1);
    assert_eq!(a.len(), 2);
    assert_eq!(a.now(), Some(TimeStamp::new(1)));
    assert_eq!(a.past(), Some(TimeStamp::new(0)));
    assert_eq!(
        a.iter(TickRange::full()),
        vec![
            (
                TimeStamp::new(0),
                &Input {
                    run: true,
                    jump: false
                }
            ),
            (
                TimeStamp::new(1),
                &Input {
                    run: false,
                    jump: false
                }
            )
        ]
    );
}

#[test]
fn test_history_buffer_replication() {
    let mut a = HistoryBuffer::with_capacity(4);
    a.set(
        TimeStamp::new(0),
        Input {
            run: true,
            jump: true,
        },
    );
    a.set(
        TimeStamp::new(1),
        Input {
            run: true,
            jump: true,
        },
    );
    a.set(
        TimeStamp::new(2),
        Input {
            run: false,
            jump: false,
        },
    );

    let mut buffer = Buffer::new(Default::default());
    a.collect_changes(&mut buffer, TickRange::full(), true).unwrap();
    let buffer = buffer.into_inner();
    assert_eq!(buffer.len(), 10);

    let mut b = HistoryBuffer::with_capacity(4);
    let mut buffer = Buffer::new(buffer);
    b.apply_changes(&mut buffer).unwrap();

    assert_eq!(a, b);

    let mut buffer = Buffer::new(Default::default());
    a.collect_changes(&mut buffer, TickRange::full(), false).unwrap();
    let buffer = buffer.into_inner();
    assert_eq!(buffer.len(), 9);

    let mut b = HistoryBuffer::with_capacity(4);
    let mut buffer = Buffer::new(buffer);
    b.apply_changes(&mut buffer).unwrap();

    assert_eq!(a, b);
}

#[test]
fn test_history_event() {
    let mut buffer = HistoryBuffer::with_capacity(4);
    buffer.set(TimeStamp::new(0), 0);
    buffer.set(TimeStamp::new(1), 1);
    buffer.set(TimeStamp::new(2), 2);

    let event = HistoryEvent::collect_history(&buffer, TickRange::full()).unwrap();
    assert_eq!(event.past(), TimeStamp::new(0));
    assert_eq!(event.snapshots(), &vec![0, 1, 2]);

    let mut new_buffer = HistoryBuffer::with_capacity(4);
    event.apply_history(&mut new_buffer).unwrap();
    assert_eq!(buffer, new_buffer);

    let mut temp = HistoryBuffer::with_capacity(4);
    temp.set(TimeStamp::new(1), 10);
    temp.set(TimeStamp::new(2), 20);
    let divergence = event.apply_history_divergence(&mut temp).unwrap().unwrap();
    assert_eq!(divergence, TimeStamp::new(1));

    let mut temp = HistoryBuffer::with_capacity(4);
    temp.set(TimeStamp::new(10), 10);
    assert!(event.apply_history_divergence(&mut temp).unwrap().is_none());
}

#[test]
fn empty_histories_have_nothing_to_write() {
    let history = HistoryBuffer::<u8>::with_capacity(3);
    for compress in [false, true] {
        let mut buffer = Buffer::new(Vec::new());
        assert_eq!(
            history.collect_changes(&mut buffer, TickRange::full(), compress),
            Err(Error::MissingValue(0))
        );
    }
}

#[test]
fn stretches_arrive_as_they_were_collected() {
    let mut here = HistoryBuffer::<u8>::with_capacity(10);
    for (tick, value) in [(3, 1), (4, 1), (5, 7), (6, 9)] {
        here.set(TimeStamp::new(tick), value);
    }
    let stretch = TickRange::since(TimeStamp::new(4));
    let event = HistoryEvent::collect_history(&here, stretch).unwrap();
    let mut there = HistoryBuffer::<u8>::with_capacity(2);
    event.apply_history(&mut there).unwrap();
    assert_eq!(there.get(TimeStamp::new(6)), Some(&9));
    assert_eq!(there.get(TimeStamp::new(5)), Some(&7));
    assert_eq!(there.get(TimeStamp::new(4)), None);

    for compress in [false, true] {
        let mut buffer = Buffer::new(Vec::new());
        here.collect_changes(&mut buffer, TickRange::full(), compress)
            .unwrap();
        let mut back = HistoryBuffer::<u8>::with_capacity(10);
        back.apply_changes(&mut Buffer::new(buffer.into_inner()))
            .unwrap();
        for tick in 3..=6 {
            assert_eq!(back.get(TimeStamp::new(tick)), here.get(TimeStamp::new(tick)));
        }
        assert_eq!(back.divergence(&here), None);
    }
}
