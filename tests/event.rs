use akasha::event::Event;

#[test]
pub fn test_event() {
    let mut e = Event::new(1, "test", "test");
    assert_eq!(e.get_id(), 1);
    assert_eq!(e.get_phenomenon(), "test");
    assert_eq!(e.get_noumenon(), "test");
    e.set_phenomenon("test2");
    e.set_noumenon("test3");
    assert_eq!(e.get_phenomenon(), "test2");
    assert_eq!(e.get_noumenon(), "test3");
}

#[test]
fn event_new_is_stamped_now() {
    let e = Event::new(7, "kind", "body");
    // 2020-01-01 in nanoseconds: any sane clock is later.
    assert!(e.timestamp > 1_577_836_800_000_000_000);
    let d = e.duplicate();
    assert_eq!(d.id, 7);
    assert_eq!(d.phenomenon, "kind");
    assert_eq!(d.noumenon, "body");
    assert_eq!(d.timestamp, e.timestamp);
}

#[test]
fn setters_chain() {
    let mut e = Event::new(2, "a", "b");
    e.set_phenomenon("c").set_noumenon("d");
    assert_eq!(e.get_phenomenon(), "c");
    assert_eq!(e.get_noumenon(), "d");
    assert_eq!(e.get_id(), 2);
}
