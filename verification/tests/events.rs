use goetia::events::Events;

#[test]
fn events_live_for_two_ticks() {
    let mut ev: Events<u32> = Events::new();
    ev.send(1);
    ev.send(2);
    assert_eq!(ev.len(), 2);
    ev.update();
    ev.send(3);
    let seen: Vec<u32> = ev.iter().into_iter().copied().collect();
    assert_eq!(seen, vec![1, 2, 3]);
    ev.update();
    let seen: Vec<u32> = ev.iter().into_iter().copied().collect();
    assert_eq!(seen, vec![3]);
    ev.update();
    assert!(ev.is_empty());
}

#[test]
fn drain_takes_only_current() {
    let mut ev: Events<&str> = Events::default();
    ev.send("old");
    ev.update();
    ev.send("new");
    assert_eq!(ev.drain_current(), vec!["new"]);
    assert_eq!(ev.len(), 1);
    let seen: Vec<&str> = ev.iter().into_iter().copied().collect();
    assert_eq!(seen, vec!["old"]);
}
