use pathmap::timed_span::{reset_counters, Counter, Entries, TimedSpanGuard, ENTRY_COUNT};

#[test]
fn test_timed_span() {
    let mut counters: Vec<Counter> = (0..ENTRY_COUNT).map(|_| Counter::new()).collect();
    reset_counters(&mut counters);
    {
        let index = Entries::Reset.index();
        counters[index].start_run();
        let guard = TimedSpanGuard::new(1_000);
        for ii in 0..100_000 {
            core::hint::black_box(ii);
        }
        guard.finish(1_750, &mut counters[index]);
    }
    assert_eq!(counters[0].count, 1);
    assert_eq!(counters[0].cycles, 750);
    assert!(counters[1..].iter().all(|c| c.is_idle()));
}

#[test]
fn entries_names_and_positions() {
    let all = Entries::all();
    assert_eq!(all.len(), 22);
    assert_eq!(all[0].to_str(), "Reset");
    assert_eq!(all[21].to_str(), "ForkReadZipper");
    assert_eq!(Entries::DescendUntil.index(), 8);
    assert_eq!(Entries::DescendUntil.to_str(), "DescendUntil");
    assert!(Entries::from_index(22).is_none());
    for (i, e) in all.iter().enumerate() {
        assert_eq!(e.index(), i);
    }
}

#[test]
fn counter_totals_wrap() {
    let mut c = Counter { count: u64::MAX, cycles: u64::MAX - 1 };
    c.start_run();
    c.add_cycles(3);
    assert_eq!((c.count, c.cycles), (0, 1));
    reset_counters(&mut vec![Counter { count: 5, cycles: 6 }]);
}
