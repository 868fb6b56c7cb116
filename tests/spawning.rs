use foxtrot::event::{DelayedSpawnEvent, DuplicationEvent, ParentChangeEvent, SpawnEvent};
use foxtrot::scheduler::DelayedSpawnQueue;

type Placement = (i32, i32, i32);

fn crate_event() -> SpawnEvent<String, Placement> {
    SpawnEvent {
        object: String::from("crate"),
        transform: (1, -2, 3),
    }
}

fn delayed(tick_delay: usize) -> DelayedSpawnEvent<String, Placement> {
    DelayedSpawnEvent {
        tick_delay,
        event: crate_event(),
    }
}

#[test]
fn pass_tick_decrements_by_one() {
    let mut e = delayed(5);
    e.pass_tick();
    assert_eq!(e.tick_delay, 4);
}

#[test]
fn pass_tick_is_chainable() {
    let mut e = delayed(5);
    e.pass_tick().pass_tick().pass_tick();
    assert_eq!(e.tick_delay, 2);
}

#[test]
fn done_after_exactly_delay_ticks() {
    let mut e = delayed(3);
    e.pass_tick();
    e.pass_tick();
    assert!(!e.is_done());
    e.pass_tick();
    assert!(e.is_done());
}

#[test]
fn zero_delay_is_done_immediately() {
    assert!(delayed(0).is_done());
}

#[test]
fn pass_tick_saturates_at_zero() {
    let mut e = delayed(1);
    e.pass_tick();
    e.pass_tick();
    e.pass_tick();
    assert_eq!(e.tick_delay, 0);
    assert!(e.is_done());
}

#[test]
fn pass_tick_keeps_wrapped_event() {
    let mut e = delayed(2);
    e.pass_tick();
    e.pass_tick();
    assert_eq!(e.event, crate_event());
}

#[test]
fn delayed_spawn_released_after_three_ticks() {
    let mut q: DelayedSpawnQueue<String, Placement> = DelayedSpawnQueue::new();
    q.schedule(delayed(3));
    assert!(q.tick().is_empty());
    assert!(q.tick().is_empty());
    assert_eq!(q.len(), 1);
    assert_eq!(q.pending()[0].tick_delay, 1);
    let released = q.tick();
    assert_eq!(released.len(), 1);
    assert_eq!(released[0], crate_event());
    assert_eq!(released[0].object, "crate");
    assert_eq!(released[0].transform, (1, -2, 3));
    assert_eq!(q.len(), 0);
    assert!(q.tick().is_empty());
}

#[test]
fn zero_delay_released_on_next_tick() {
    let mut q: DelayedSpawnQueue<String, Placement> = DelayedSpawnQueue::new();
    q.schedule(delayed(0));
    let released = q.tick();
    assert_eq!(released, vec![crate_event()]);
    assert_eq!(q.len(), 0);
}

#[test]
fn empty_queue_tick_releases_nothing() {
    let mut q: DelayedSpawnQueue<String, Placement> = DelayedSpawnQueue::new();
    assert!(q.tick().is_empty());
    assert_eq!(q.len(), 0);
}

#[test]
fn queue_releases_in_scheduling_order_and_keeps_rest() {
    let mut q: DelayedSpawnQueue<u32, Placement> = DelayedSpawnQueue::new();
    for (delay, object) in [(2usize, 10u32), (1, 11), (3, 12), (1, 13)] {
        q.schedule(DelayedSpawnEvent {
            tick_delay: delay,
            event: SpawnEvent {
                object,
                transform: (0, 0, 0),
            },
        });
    }
    let first: Vec<u32> = q.tick().into_iter().map(|e| e.object).collect();
    assert_eq!(first, vec![11, 13]);
    let pending: Vec<(usize, u32)> = q
        .pending()
        .iter()
        .map(|e| (e.tick_delay, e.event.object))
        .collect();
    assert_eq!(pending, vec![(1, 10), (2, 12)]);
    let second: Vec<u32> = q.tick().into_iter().map(|e| e.object).collect();
    assert_eq!(second, vec![10]);
    let third: Vec<u32> = q.tick().into_iter().map(|e| e.object).collect();
    assert_eq!(third, vec![12]);
    assert_eq!(q.len(), 0);
}

#[test]
fn notification_events_compare_by_fields() {
    let moved = ParentChangeEvent {
        name: String::from("lamp"),
        new_parent: Some(String::from("room")),
    };
    assert_eq!(moved.clone(), moved);
    assert_ne!(moved, ParentChangeEvent::default());
    let detached = ParentChangeEvent {
        name: String::from("lamp"),
        new_parent: None,
    };
    assert_ne!(moved, detached);
    let dup = DuplicationEvent {
        name: String::from("lamp"),
    };
    assert_eq!(dup, DuplicationEvent { name: String::from("lamp") });
    assert_eq!(DuplicationEvent::default().name, "");
}

#[test]
fn default_delayed_event_is_done() {
    let e: DelayedSpawnEvent<String, Placement> = DelayedSpawnEvent::default();
    assert!(e.is_done());
}
