use kon_ecs::events::{InputState, KeyCode, KeyboardInput};
use kon_ecs::{AppExit, Events};

#[derive(Debug, Clone, PartialEq)]
enum Ev {
    Test { value: i32 },
    Other { value: &'static str },
}

const TEST_EVENT: u32 = 0;
const OTHER_EVENT: u32 = 1;

fn test_value(e: &Ev) -> i32 {
    match e {
        Ev::Test { value } => *value,
        _ => panic!("not a test event"),
    }
}

fn other_value(e: &Ev) -> &'static str {
    match e {
        Ev::Other { value } => value,
        _ => panic!("not an other event"),
    }
}

#[test]
fn send_and_read_event() {
    let mut events = Events::new();
    events.send(TEST_EVENT, Ev::Test { value: 10 });

    let received: Vec<_> = events.read(TEST_EVENT);
    assert_eq!(test_value(received[0]), 10);
}

#[test]
fn read_empty_queue() {
    let events: Events<Ev> = Events::new();
    assert_eq!(events.read(TEST_EVENT).len(), 0);
}

#[test]
fn multiple_same_type_events() {
    let mut events = Events::new();

    events.send(TEST_EVENT, Ev::Test { value: 10 });
    events.send(TEST_EVENT, Ev::Test { value: 20 });
    events.send(TEST_EVENT, Ev::Test { value: 30 });

    let received: Vec<_> = events.read(TEST_EVENT);

    assert_eq!(received.len(), 3);
    assert_eq!(test_value(received[0]), 10);
    assert_eq!(test_value(received[1]), 20);
    assert_eq!(test_value(received[2]), 30);
}

#[test]
fn different_event_types_separate_queues() {
    let mut events = Events::new();

    events.send(TEST_EVENT, Ev::Test { value: 5 });
    events.send(OTHER_EVENT, Ev::Other { value: "test" });

    let received_test_event: Vec<_> = events.read(TEST_EVENT);
    let received_other_event: Vec<_> = events.read(OTHER_EVENT);

    assert_eq!(received_test_event.len(), 1);
    assert_eq!(received_other_event.len(), 1);
    assert_eq!(test_value(received_test_event[0]), 5);
    assert_eq!(other_value(received_other_event[0]), "test");
}

#[test]
fn consume_removes_events() {
    let mut events = Events::new();
    events.send(TEST_EVENT, Ev::Test { value: 5 });

    let consumed: Vec<_> = events.consume(TEST_EVENT);

    assert_eq!(consumed.len(), 1);
    assert_eq!(test_value(&consumed[0]), 5);
    assert_eq!(events.read(TEST_EVENT).len(), 0);
}

#[test]
fn clear_specific_type() {
    let mut events = Events::new();

    events.send(TEST_EVENT, Ev::Test { value: 5 });
    events.send(OTHER_EVENT, Ev::Other { value: "test" });

    events.clear(TEST_EVENT);

    assert_eq!(events.read(TEST_EVENT).len(), 0);
    assert_eq!(events.read(OTHER_EVENT).len(), 1);
}

#[test]
fn clear_all() {
    let mut events = Events::new();

    events.send(TEST_EVENT, Ev::Test { value: 5 });
    events.send(OTHER_EVENT, Ev::Other { value: "test" });

    events.clear_all();

    assert_eq!(events.read(TEST_EVENT).len(), 0);
    assert_eq!(events.read(OTHER_EVENT).len(), 0);
}

#[test]
fn queues_refill_after_consume() {
    let mut events = Events::new();
    events.send(0, KeyboardInput { key: KeyCode::A, state: InputState::Pressed });
    events.send(0, KeyboardInput { key: KeyCode::A, state: InputState::Released });
    let first = events.consume(0);
    assert_eq!(first.len(), 2);
    assert_eq!(first[1].state, InputState::Released);
    assert!(events.consume(0).is_empty());
    events.send(0, KeyboardInput { key: KeyCode::Escape, state: InputState::Pressed });
    assert_eq!(events.read(0), vec![&KeyboardInput { key: KeyCode::Escape, state: InputState::Pressed }]);
    let mut exits = Events::new();
    exits.send(9, AppExit);
    assert_eq!(exits.read(9).len(), 1);
    assert!(exits.read(8).is_empty());
}
