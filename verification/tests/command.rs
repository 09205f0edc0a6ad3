use tehuti::error::Error;
use tehuti::timeline::command::{
    Command, CommandFrame, CommandHistoryBuffer, CommandHistoryEvent, CommandId, CommandSlot,
    CommandSnapshot,
};
use tehuti::timeline::history::TickRange;
use tehuti::timeline::time::TimeStamp;

#[derive(Debug, Clone, Copy, PartialEq, Eq)]
enum Change {
    Do(usize),
    Undo(usize),
}

#[derive(Debug, Clone, PartialEq, Eq)]
struct Counter {
    index: usize,
    count: usize,
}

impl Counter {
    fn new(count: usize) -> Self {
        Self {
            index: 0,
            count: count.max(1),
        }
    }
}

impl Command for Counter {
    type Context = Vec<Change>;

    fn does(self, _: Vec<Change>, _: Self, _: Vec<Change>) -> bool {
        unreachable!()
    }

    fn undoes(self, _: Vec<Change>, _: Self, _: Vec<Change>) -> bool {
        unreachable!()
    }

    fn tick(&self) -> Result<Option<Self>, Error> {
        let index = self.index + 1;
        if index < self.count {
            Ok(Some(Self {
                index,
                count: self.count,
            }))
        } else {
            Ok(None)
        }
    }

    fn on_do(&mut self, context: &mut Self::Context) -> Result<(), Error> {
        context.push(Change::Do(self.index));
        Ok(())
    }

    fn on_undo(&mut self, context: &mut Self::Context) -> Result<(), Error> {
        context.push(Change::Undo(self.index));
        Ok(())
    }
}

fn frame(id_generator: u64, counters: &[(usize, usize)]) -> CommandFrame<Counter> {
    CommandFrame {
        id_generator: CommandId::new(id_generator),
        commands: counters
            .iter()
            .map(|(index, count)| CommandSlot {
                id: CommandId::new(0),
                data: Counter {
                    index: *index,
                    count: *count,
                },
            })
            .collect(),
    }
}

fn frames(history: &CommandHistoryBuffer<Counter>) -> Vec<(TimeStamp, CommandFrame<Counter>)> {
    history
        .iter(TickRange::full())
        .into_iter()
        .map(|(timestamp, frame)| (timestamp, frame.clone()))
        .collect()
}

fn numbered(frames: Vec<CommandFrame<Counter>>) -> Vec<(TimeStamp, CommandFrame<Counter>)> {
    frames
        .into_iter()
        .enumerate()
        .map(|(tick, frame)| (TimeStamp::new(tick as u64), frame))
        .collect()
}

#[test]
fn test_command_progression() {
    let mut changes = Vec::<Change>::new();
    let mut history = CommandHistoryBuffer::without_capacity();
    history.spawn(TimeStamp::new(0), Counter::new(3)).unwrap();

    history
        .tick_range(TickRange::between(TimeStamp::new(0), TimeStamp::new(5)))
        .unwrap();
    assert_eq!(history.len(), 6);
    assert_eq!(history.now(), Some(TimeStamp::new(5)));
    assert_eq!(history.past(), Some(TimeStamp::new(0)));
    assert_eq!(
        frames(&history),
        numbered(vec![
            frame(1, &[(0, 3)]),
            frame(1, &[(1, 3)]),
            frame(1, &[(2, 3)]),
            frame(1, &[]),
            frame(1, &[]),
            frame(1, &[]),
        ])
    );

    changes.clear();
    history.do_range(&mut changes, TickRange::full()).unwrap();
    assert_eq!(changes, vec![Change::Do(0), Change::Do(1), Change::Do(2)]);

    changes.clear();
    history
        .undo_range(&mut changes, TickRange::since(TimeStamp::new(1)))
        .unwrap();
    assert_eq!(changes, vec![Change::Undo(2), Change::Undo(1)]);

    history.time_travel_to(TimeStamp::new(1)).unwrap();
    assert_eq!(history.len(), 3);
    assert_eq!(history.now(), Some(TimeStamp::new(2)));
    assert_eq!(history.past(), Some(TimeStamp::new(0)));
    assert_eq!(
        frames(&history),
        numbered(vec![
            frame(1, &[(0, 3)]),
            frame(1, &[(1, 3)]),
            frame(1, &[(2, 3)]),
        ])
    );

    history
        .tick_range(TickRange::inclusive(TimeStamp::new(1), TimeStamp::new(2)))
        .unwrap();
    assert_eq!(history.len(), 4);
    assert_eq!(history.now(), Some(TimeStamp::new(3)));
    assert_eq!(history.past(), Some(TimeStamp::new(0)));
    assert_eq!(
        frames(&history),
        numbered(vec![
            frame(1, &[(0, 3)]),
            frame(1, &[(1, 3)]),
            frame(1, &[(2, 3)]),
            frame(1, &[]),
        ])
    );

    changes.clear();
    history
        .do_range(&mut changes, TickRange::since(TimeStamp::new(1)))
        .unwrap();
    assert_eq!(changes, vec![Change::Do(1), Change::Do(2)]);

    changes.clear();
    history
        .undo_range(&mut changes, TickRange::since(TimeStamp::new(2)))
        .unwrap();
    assert_eq!(changes, vec![Change::Undo(2)]);

    history
        .set_range(TickRange::until(TimeStamp::new(1)))
        .unwrap();
    assert_eq!(history.len(), 3);
    assert_eq!(history.now(), Some(TimeStamp::new(2)));
    assert_eq!(history.past(), Some(TimeStamp::new(0)));
    assert_eq!(
        frames(&history),
        numbered(vec![
            frame(1, &[(0, 3)]),
            frame(1, &[(1, 3)]),
            frame(1, &[(2, 3)]),
        ])
    );
}

#[test]
fn test_command_event() {
    let mut history = CommandHistoryBuffer::without_capacity();
    history.spawn(TimeStamp::new(0), Counter::new(3)).unwrap();
    history
        .tick_range(TickRange::between(TimeStamp::new(0), TimeStamp::new(5)))
        .unwrap();

    let event = history.collect_history_delta(TickRange::full()).unwrap();
    assert_eq!(event.past(), TimeStamp::new(0));
    assert_eq!(
        event.snapshots(),
        &vec![
            CommandSnapshot::Full(frame(1, &[(0, 3)])),
            CommandSnapshot::SameAsLast,
            CommandSnapshot::SameAsLast,
            CommandSnapshot::DifferentFromLast {
                id_generator: CommandId::new(1),
                added: vec![],
                removed: vec![CommandId::new(0)],
            },
            CommandSnapshot::SameAsLast,
            CommandSnapshot::SameAsLast,
        ]
    );

    let mut new_history = CommandHistoryBuffer::without_capacity();
    new_history.apply_history(&event).unwrap();
    assert_eq!(history, new_history);

    let event = history
        .collect_history_delta(TickRange::since(TimeStamp::new(2)))
        .unwrap();
    let mut history = CommandHistoryBuffer::without_capacity();
    history
        .tick_range(TickRange::until(TimeStamp::new(1)))
        .unwrap();
    history.spawn(TimeStamp::new(1), Counter::new(5)).unwrap();
    history
        .tick_range(TickRange::inclusive(TimeStamp::new(1), TimeStamp::new(2)))
        .unwrap();
    let divergence = history.apply_history_divergence(&event).unwrap().unwrap();
    assert_eq!(divergence, TimeStamp::new(2));
    assert_eq!(
        frames(&history),
        numbered(vec![
            frame(0, &[]),
            frame(1, &[(0, 5)]),
            frame(1, &[(2, 3)]),
            frame(1, &[]),
            frame(1, &[]),
            frame(1, &[]),
        ])
    );
}

#[test]
fn commands_need_a_frame() {
    let mut history = CommandHistoryBuffer::with_capacity(3);
    assert_eq!(
        history.spawn(TimeStamp::new(7), Counter::new(1)),
        Err(Error::NoFrame(7))
    );
    assert_eq!(
        history.spawn(TimeStamp::new(0), Counter::new(1)),
        Ok(CommandId::new(0))
    );
    assert_eq!(
        history.spawn(TimeStamp::new(0), Counter::new(2)),
        Ok(CommandId::new(1))
    );
    assert!(history.has_command(TimeStamp::new(0), CommandId::new(1)));
    assert!(!history.has_command(TimeStamp::new(0), CommandId::new(2)));
    assert_eq!(
        history.command(TimeStamp::new(0), CommandId::new(1)),
        Some(&Counter::new(2))
    );
}

#[test]
fn capacity_bounds_the_history() {
    let mut history = CommandHistoryBuffer::with_capacity(2);
    history.spawn(TimeStamp::new(0), Counter::new(9)).unwrap();
    history
        .tick_range(TickRange::inclusive(TimeStamp::new(0), TimeStamp::new(4)))
        .unwrap();
    assert_eq!(history.len(), 2);
    assert_eq!(history.now(), Some(TimeStamp::new(5)));
    assert_eq!(history.past(), Some(TimeStamp::new(4)));
    assert_eq!(history.capacity(), 2);
}

#[test]
fn a_single_snapshot_is_a_stretch() {
    let event = CommandHistoryEvent::single(TimeStamp::new(3), frame(1, &[(0, 2)]));
    assert_eq!(event.past(), TimeStamp::new(3));
    assert_eq!(event.now(), TimeStamp::new(3));
    let mut history = CommandHistoryBuffer::without_capacity();
    history.apply_history(&event).unwrap();
    assert_eq!(history.now(), Some(TimeStamp::new(3)));
    assert_eq!(
        history.frame(TimeStamp::new(3)),
        Some(&frame(1, &[(0, 2)]))
    );
}

#[test]
fn ids_have_labels() {
    assert_eq!(CommandId::new(12).to_text(), "#command:12");
    assert_eq!(TimeStamp::new(0).to_text(), "#timestamp:0");
}

/// Adds to a number, and takes away again what it added.
#[derive(Clone)]
struct Raise(i64);

impl Command for Raise {
    type Context = i64;

    fn does(self, _: i64, _: Self, _: i64) -> bool {
        unreachable!()
    }

    fn undoes(self, _: i64, _: Self, _: i64) -> bool {
        unreachable!()
    }

    fn tick(&self) -> Result<Option<Self>, Error> {
        Ok(Some(Raise(self.0 + 1)))
    }

    fn on_do(&mut self, context: &mut i64) -> Result<(), Error> {
        *context = *context * 2 + self.0;
        Ok(())
    }

    fn on_undo(&mut self, context: &mut i64) -> Result<(), Error> {
        *context = (*context - self.0) / 2;
        Ok(())
    }
}

#[test]
fn undoing_takes_back_what_was_done() {
    let mut history = CommandHistoryBuffer::without_capacity();
    let start = TimeStamp::new(0);
    assert_eq!(history.spawn(start, Raise(5)), Ok(CommandId::new(0)));
    assert_eq!(history.spawn(start, Raise(7)), Ok(CommandId::new(1)));
    history
        .tick_range(TickRange::between(start, TimeStamp::new(4)))
        .unwrap();
    assert!(history.has_command(TimeStamp::new(3), CommandId::new(1)));

    let mut number = 1;
    history.do_once(&mut number, start).unwrap();
    assert_eq!(number, (1 * 2 + 5) * 2 + 7);
    history.undo_once(&mut number, start).unwrap();
    assert_eq!(number, 1);

    history.do_range(&mut number, TickRange::full()).unwrap();
    assert_ne!(number, 1);
    history.undo_range(&mut number, TickRange::full()).unwrap();
    assert_eq!(number, 1);
}

#[test]
fn spawned_ids_are_fresh_on_later_ticks_too() {
    let mut history = CommandHistoryBuffer::without_capacity();
    for tick in 0..3 {
        let timestamp = TimeStamp::new(tick);
        let id = history.spawn(timestamp, Raise(0)).unwrap();
        assert_eq!(id, CommandId::new(tick));
        history.tick_once(timestamp).unwrap();
    }
    assert_eq!(history.commands(TimeStamp::new(3)).len(), 3);
}

#[test]
fn whole_frames_are_restored() {
    let mut history = CommandHistoryBuffer::without_capacity();
    history.spawn(TimeStamp::new(0), Counter::new(3)).unwrap();
    history
        .tick_range(TickRange::between(TimeStamp::new(0), TimeStamp::new(5)))
        .unwrap();
    let range = TickRange::inclusive(TimeStamp::new(1), TimeStamp::new(3));
    let event = history.collect_history(range).unwrap();
    assert_eq!(event.clone(), event);
    let mut other = CommandHistoryBuffer::with_capacity(3);
    other.apply_history(&event).unwrap();
    assert_eq!(other.now(), Some(TimeStamp::new(3)));
    for (tick, (timestamp, frame)) in (1..).zip(history.iter(range)) {
        assert_eq!(timestamp, TimeStamp::new(tick));
        assert_eq!(other.frame(timestamp), Some(frame));
    }
    assert_eq!(other.clone(), other);
    assert_ne!(other, history);
}
