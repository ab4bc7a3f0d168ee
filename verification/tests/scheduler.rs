use portprobe::scan::{Port, Status};
use portprobe::sched::Scheduler;

fn pending(num: u16) -> Port {
    Port { num, stat: Status::Closed, meta: None }
}

#[test]
fn one_worker_never_two_in_flight() {
    let ports = vec![pending(1), pending(2), pending(3)];
    let mut s = Scheduler::new(ports, 1);
    let first = s.launch().expect("slot free");
    assert_eq!(first.num, 1);
    assert!(s.launch().is_none(), "second probe admitted with one worker");
    s.complete(first);
    let second = s.launch().expect("slot freed");
    assert_eq!(second.num, 2);
    assert!(s.launch().is_none());
    s.complete(second);
    let third = s.launch().expect("slot freed");
    assert_eq!(third.num, 3);
    assert!(s.launch().is_none());
    s.complete(third);
    assert!(s.launch().is_none());
    assert!(s.finished());
}

#[test]
fn worker_budget_caps_in_flight() {
    let ports = vec![pending(10), pending(11), pending(12), pending(13)];
    let mut s = Scheduler::new(ports, 2);
    let a = s.launch().unwrap();
    let b = s.launch().unwrap();
    assert!(s.launch().is_none(), "third probe admitted with two workers");
    s.complete(a);
    let c = s.launch().unwrap();
    assert!(s.launch().is_none());
    s.complete(b);
    s.complete(c);
    let d = s.launch().unwrap();
    assert!(s.launch().is_none(), "queue drained");
    s.complete(d);
    assert!(s.finished());
}

#[test]
fn every_port_is_accounted_for_exactly_once() {
    let ports: Vec<Port> = (1u16..=20).map(pending).collect();
    let mut s = Scheduler::new(ports, 4);
    let mut running: Vec<Port> = Vec::new();
    loop {
        while let Some(p) = s.launch() {
            running.push(p);
        }
        match running.pop() {
            Some(mut p) => {
                p.stat = Status::Open;
                assert!(s.is_in_flight(p.num));
                s.complete(p);
            },
            None => break,
        }
    }
    assert!(s.finished());
    assert_eq!(s.done.len(), 20);
    let mut seen = std::collections::HashSet::new();
    for p in &s.done {
        assert!(seen.insert(p.num), "port {} reported twice", p.num);
        assert!((1..=20).contains(&p.num));
    }
}

#[test]
fn completion_order_need_not_match_input_order() {
    let ports = vec![pending(7), pending(8)];
    let mut s = Scheduler::new(ports, 2);
    let a = s.launch().unwrap();
    let b = s.launch().unwrap();
    s.complete(b);
    s.complete(a);
    assert!(s.finished());
    let done: Vec<u16> = s.done.iter().map(|p| p.num).collect();
    assert_eq!(done, vec![8, 7]);
}

#[test]
fn is_in_flight_tracks_launch_and_complete() {
    let ports = vec![pending(5)];
    let mut s = Scheduler::new(ports, 3);
    assert!(!s.is_in_flight(5));
    let p = s.launch().unwrap();
    assert!(s.is_in_flight(5));
    assert!(!s.is_in_flight(6));
    s.complete(p);
    assert!(!s.is_in_flight(5));
}
