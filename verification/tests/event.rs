use ecs::world::entity::Entity;
use ecs::world::event::{EntityEvents, Event, Events};

#[derive(Debug, Clone, PartialEq, Eq)]
struct Hit(u32);
impl Event for Hit {}

#[test]
fn events_are_read_the_frame_after_they_are_sent() {
    let mut events = Events::<Hit>::new();
    {
        let mut writer = events.writer();
        writer.send(Hit(1));
        writer.send(Hit(2));
    }
    assert_eq!(events.reader().next(), None);

    events.update();
    let mut reader = events.reader();
    assert_eq!(reader.next(), Some(&Hit(1)));
    assert_eq!(reader.next(), Some(&Hit(2)));
    assert_eq!(reader.next(), None);

    events.update();
    assert_eq!(events.reader().next(), None);
}

#[test]
fn triggered_events_are_listed_under_their_entity() {
    let mut events = Events::<Hit>::new();
    let a = Entity::new(0, 1);
    let b = Entity::new(1, 1);
    {
        let mut writer = events.writer();
        writer.trigger(a, Hit(10));
        writer.send(Hit(11));
        writer.trigger(b, Hit(12));
        writer.trigger(a, Hit(13));
    }
    events.update();
    assert_eq!(events.entity(a), &[0, 3]);
    assert_eq!(events.entity(b), &[2]);
    assert_eq!(events.entity(Entity::new(0, 2)), &[] as &[usize]);

    let mut of_a = EntityEvents::new(&events, events.entity(a));
    assert_eq!(of_a.next(), Some(&Hit(10)));
    assert_eq!(of_a.next(), Some(&Hit(13)));
    assert_eq!(of_a.next(), None);
}

#[test]
fn send_batch_keeps_order() {
    let mut events = Events::<Hit>::new();
    events.writer().send(Hit(0));
    events.writer().send_batch(vec![Hit(1), Hit(2)]);
    events.update();
    let mut reader = events.reader();
    assert_eq!(reader.next(), Some(&Hit(0)));
    assert_eq!(reader.next(), Some(&Hit(1)));
    assert_eq!(reader.next(), Some(&Hit(2)));
    assert_eq!(reader.next(), None);
}
