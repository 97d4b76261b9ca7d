use mvitop::event::EventLoop;

#[test]
fn ticks_come_one_interval_apart() {
    let mut events = EventLoop::new(1_000, 200);
    assert_eq!(events.timeout(1_050), 150);
    assert_eq!(events.timeout(1_200), 0);
    assert_eq!(events.timeout(5_000), 0);
    events.tick(1_210);
    assert_eq!(events.next_tick, 1_410);
    assert_eq!(events.timeout(1_210), 200);
}

#[test]
fn a_new_interval_restarts_the_wait() {
    let mut events = EventLoop::new(0, 200);
    events.set_interval(100, 1_000);
    assert_eq!(events, EventLoop { next_tick: 1_100, interval: 1_000 });
    assert_eq!(events.timeout(100), 1_000);
}
