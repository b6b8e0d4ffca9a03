use task_motel::signal::StopSignal;

#[test]
fn stop_signal_starts_empty() {
    let mut x = StopSignal::new();
    assert_eq!(x.num_waiting(), 0);
    assert_eq!(x.emit(), 0);
    assert_eq!(x.num_waiting(), 0);
}

#[test]
fn stop_signal_stops_every_waiting_listener() {
    let mut x = StopSignal::new();
    let mut a = x.subscribe();
    let mut b = x.subscribe();
    let mut c = x.subscribe();
    assert_eq!(x.num_waiting(), 3);
    assert_eq!(a.try_recv(), Ok(None));

    assert_eq!(x.emit(), 3);
    assert_eq!(x.num_waiting(), 0);
    assert_eq!(a.try_recv(), Ok(Some(())));
    assert_eq!(b.try_recv(), Ok(Some(())));
    assert_eq!(c.try_recv(), Ok(Some(())));

    // A listener that arrives after the stop waits for the next one.
    let mut d = x.subscribe();
    assert_eq!(x.num_waiting(), 1);
    assert_eq!(d.try_recv(), Ok(None));
    assert_eq!(x.emit(), 1);
    assert_eq!(d.try_recv(), Ok(Some(())));
}

#[test]
fn emit_with_dropped_listener_still_stops_the_rest() {
    let mut x = StopSignal::new();
    let a = x.subscribe();
    let mut b = x.subscribe();
    drop(a);
    assert_eq!(x.emit(), 2);
    assert_eq!(b.try_recv(), Ok(Some(())));
}

#[test]
fn dropping_the_signal_releases_its_listeners() {
    let mut x = StopSignal::new();
    let mut a = x.subscribe();
    drop(x);
    assert!(a.try_recv().is_err());
}
