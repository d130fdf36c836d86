use linux_system_monitor::metrics::{bytes_to_mib, push_core_samples, History, HISTORY_CAPACITY};

#[test]
fn history_starts_empty() {
    let h: History<u32> = History::new();
    assert!(h.is_empty());
    assert_eq!(h.len(), 0);
}

#[test]
fn history_keeps_everything_below_capacity() {
    let mut h = History::new();
    for i in 0..10u32 {
        h.push_sample(i);
    }
    assert_eq!(h.samples(), &(0..10u32).collect::<Vec<u32>>()[..]);
}

#[test]
fn history_keeps_the_latest_sixty() {
    assert_eq!(HISTORY_CAPACITY, 60);
    let mut h = History::new();
    for i in 0..70u32 {
        h.push_sample(i);
        assert!(h.len() <= 60);
    }
    assert_eq!(h.len(), 60);
    assert_eq!(h.samples(), &(10..70u32).collect::<Vec<u32>>()[..]);
}

#[test]
fn history_holds_floats_too() {
    let mut h = History::new();
    for i in 0..61 {
        h.push_sample(i as f64 * 0.5);
    }
    assert_eq!(h.samples()[0], 0.5);
    assert_eq!(h.samples()[59], 30.0);
}

#[test]
fn bytes_to_mib_rounds_down() {
    assert_eq!(bytes_to_mib(0), 0);
    assert_eq!(bytes_to_mib(1048575), 0);
    assert_eq!(bytes_to_mib(1048576), 1);
    assert_eq!(bytes_to_mib(8 * 1024 * 1024 * 1024), 8192);
    assert_eq!(bytes_to_mib(u64::MAX), 17592186044415);
}

#[test]
fn core_samples_go_to_their_own_histories() {
    let mut hs: Vec<History<u32>> = vec![History::new(), History::new(), History::new()];
    push_core_samples(&mut hs, vec![10, 20]);
    push_core_samples(&mut hs, vec![11, 21, 31, 41]);
    assert_eq!(hs.len(), 3);
    assert_eq!(hs[0].samples(), &[10, 11][..]);
    assert_eq!(hs[1].samples(), &[20, 21][..]);
    assert_eq!(hs[2].samples(), &[31][..]);
    for round in 0..70u32 {
        push_core_samples(&mut hs, vec![round]);
    }
    assert_eq!(hs[0].len(), 60);
    assert_eq!(hs[0].samples()[59], 69);
    assert_eq!(hs[1].samples(), &[20, 21][..]);
}
