use collatz_search::{collatz_step, CollatzSearcher, Outcome, RangeList, REPORT_INTERVAL};

const LARGEST_ODD_THAT_FITS: u128 = 113427455640312821154458202477256070483;

#[test]
fn collatz_step_halves_even_values() {
    assert_eq!(collatz_step(0), Some(0));
    assert_eq!(collatz_step(2), Some(1));
    assert_eq!(collatz_step(6), Some(3));
    assert_eq!(collatz_step(16), Some(8));
    assert_eq!(collatz_step(u128::MAX - 1), Some((u128::MAX - 1) / 2));
}

#[test]
fn collatz_step_triples_odd_values() {
    assert_eq!(collatz_step(1), Some(4));
    assert_eq!(collatz_step(5), Some(16));
    assert_eq!(collatz_step(7), Some(22));
    assert_eq!(collatz_step(27), Some(82));
}

#[test]
fn collatz_step_reports_overflow() {
    assert_eq!(
        collatz_step(LARGEST_ODD_THAT_FITS),
        Some(340282366920938463463374607431768211450)
    );
    assert_eq!(collatz_step(LARGEST_ODD_THAT_FITS + 2), None);
    assert_eq!(collatz_step(u128::MAX), None);
}

#[test]
fn new_searcher_is_seeded() {
    let searcher = CollatzSearcher::new(5);
    assert_eq!(searcher.current_index, 5);
    assert_eq!(searcher.iteration, 4);
    assert_eq!(searcher.steps, 0);
    assert_eq!(searcher.unvalidated_searches.intervals(), vec![]);
    assert_eq!(searcher.validated_searches.intervals(), vec![(1, 4)]);
}

#[test]
fn empty_searcher_has_nothing_validated() {
    let searcher = CollatzSearcher::empty(7);
    assert_eq!(searcher.current_index, 7);
    assert_eq!(searcher.iteration, 4);
    assert_eq!(searcher.steps, 0);
    assert_eq!(searcher.unvalidated_searches.intervals(), vec![]);
    assert_eq!(searcher.validated_searches.intervals(), vec![]);
}

#[test]
fn step_that_goes_on_records_the_value() {
    let mut searcher = CollatzSearcher::new(5);
    let report = searcher.calculate_next();
    assert_eq!(report.outcome, Outcome::Continue);
    assert_eq!(searcher.current_index, 16);
    assert_eq!(searcher.iteration, 4);
    assert_eq!(searcher.steps, 1);
    assert_eq!(searcher.unvalidated_searches.intervals(), vec![(16, 16)]);
    assert_eq!(searcher.validated_searches.intervals(), vec![(1, 4)]);
}

#[test]
fn end_to_end_validates_five() {
    let mut searcher = CollatzSearcher::new(5);
    assert_eq!(searcher.calculate_next().outcome, Outcome::Continue);
    assert_eq!(searcher.current_index, 16);
    assert_eq!(searcher.calculate_next().outcome, Outcome::Continue);
    assert_eq!(searcher.current_index, 8);
    assert_eq!(searcher.unvalidated_searches.intervals(), vec![(16, 16), (8, 8)]);
    assert_eq!(
        searcher.calculate_next().outcome,
        Outcome::Validated { base: 4, at: 4 }
    );
    assert_eq!(searcher.iteration, 5);
    assert_eq!(searcher.current_index, 5);
    assert_eq!(searcher.unvalidated_searches.intervals(), vec![]);
    assert_eq!(
        searcher.validated_searches.intervals(),
        vec![(1, 4), (16, 16), (8, 8)]
    );
    assert!(!searcher.validated_searches.in_range(5));
    assert_eq!(
        searcher.calculate_next().outcome,
        Outcome::Validated { base: 5, at: 16 }
    );
    assert!(searcher.validated_searches.in_range(5));
    assert_eq!(searcher.iteration, 6);
    assert_eq!(searcher.current_index, 6);
    assert_eq!(searcher.steps, 4);
    assert_eq!(searcher.unvalidated_searches.intervals(), vec![]);
    assert_eq!(
        searcher.validated_searches.intervals(),
        vec![(1, 5), (16, 16), (8, 8)]
    );
}

#[test]
fn search_validates_every_base_in_turn() {
    let mut searcher = CollatzSearcher::new(5);
    let mut proven = Vec::new();
    while searcher.iteration < 60 {
        match searcher.calculate_next().outcome {
            Outcome::Continue => {}
            Outcome::Validated { base, .. } => proven.push(base),
            other => panic!("the search stopped: {:?}", other),
        }
    }
    assert_eq!(proven, (4..60).collect::<Vec<u128>>());
    for base in 1..60u128 {
        assert!(searcher.validated_searches.in_range(base));
    }
    assert_eq!(searcher.current_index, 60);
    assert_eq!(searcher.unvalidated_searches.intervals(), vec![]);
}

#[test]
fn cycle_detection() {
    let mut searcher = CollatzSearcher::empty(5);
    assert!(!searcher.unvalidated_searches.add(16));
    let report = searcher.calculate_next();
    assert_eq!(report.outcome, Outcome::CycleDetected { value: 16 });
    assert_eq!(searcher.current_index, 16);
    assert_eq!(searcher.iteration, 4);
    assert_eq!(searcher.steps, 1);
    assert_eq!(searcher.unvalidated_searches.intervals(), vec![(16, 16)]);
    assert_eq!(searcher.validated_searches.intervals(), vec![]);
}

#[test]
fn cycle_is_looked_at_before_the_validated_set() {
    let mut searcher = CollatzSearcher::new(8);
    assert!(!searcher.unvalidated_searches.add(4));
    let report = searcher.calculate_next();
    assert_eq!(report.outcome, Outcome::CycleDetected { value: 4 });
    assert_eq!(searcher.iteration, 4);
    assert_eq!(searcher.validated_searches.intervals(), vec![(1, 4)]);
    assert_eq!(searcher.unvalidated_searches.intervals(), vec![(4, 4)]);
}

#[test]
fn trivial_cycle_is_found_where_nothing_is_validated() {
    let mut searcher = CollatzSearcher::empty(4);
    assert_eq!(searcher.calculate_next().outcome, Outcome::Continue);
    assert_eq!(searcher.calculate_next().outcome, Outcome::Continue);
    assert_eq!(searcher.calculate_next().outcome, Outcome::Continue);
    assert_eq!(searcher.current_index, 4);
    assert_eq!(searcher.unvalidated_searches.intervals(), vec![(1, 2), (4, 4)]);
    assert_eq!(
        searcher.calculate_next().outcome,
        Outcome::CycleDetected { value: 2 }
    );
    assert_eq!(searcher.current_index, 2);
    assert_eq!(searcher.unvalidated_searches.intervals(), vec![(1, 2), (4, 4)]);
}

#[test]
fn overflow_of_the_collatz_step_changes_nothing() {
    let mut searcher = CollatzSearcher::new(LARGEST_ODD_THAT_FITS + 2);
    let report = searcher.calculate_next();
    assert_eq!(report.outcome, Outcome::Overflow);
    assert_eq!(searcher.current_index, LARGEST_ODD_THAT_FITS + 2);
    assert_eq!(searcher.iteration, 4);
    assert_eq!(searcher.steps, 0);
    assert_eq!(searcher.unvalidated_searches.intervals(), vec![]);
    assert_eq!(searcher.validated_searches.intervals(), vec![(1, 4)]);
}

#[test]
fn largest_odd_value_that_fits_goes_on() {
    let mut searcher = CollatzSearcher::new(LARGEST_ODD_THAT_FITS);
    let report = searcher.calculate_next();
    assert_eq!(report.outcome, Outcome::Continue);
    assert_eq!(
        searcher.current_index,
        340282366920938463463374607431768211450
    );
}

#[test]
fn overflow_of_the_base_changes_nothing() {
    let mut searcher = CollatzSearcher::new(8);
    searcher.iteration = u128::MAX;
    let report = searcher.calculate_next();
    assert_eq!(report.outcome, Outcome::Overflow);
    assert_eq!(searcher.current_index, 8);
    assert_eq!(searcher.iteration, u128::MAX);
    assert_eq!(searcher.steps, 0);
    assert_eq!(searcher.unvalidated_searches.intervals(), vec![]);
    assert_eq!(searcher.validated_searches.intervals(), vec![(1, 4)]);
}

#[test]
fn largest_base_still_goes_on_and_finds_cycles() {
    let mut searcher = CollatzSearcher::new(32);
    searcher.iteration = u128::MAX;
    assert_eq!(searcher.calculate_next().outcome, Outcome::Continue);
    assert_eq!(searcher.current_index, 16);
    let mut searcher = CollatzSearcher::new(8);
    searcher.iteration = u128::MAX;
    searcher.unvalidated_searches.add(4);
    assert_eq!(
        searcher.calculate_next().outcome,
        Outcome::CycleDetected { value: 4 }
    );
}

#[test]
fn overflow_of_the_step_counter_changes_nothing() {
    let mut searcher = CollatzSearcher::new(5);
    searcher.steps = u128::MAX;
    let report = searcher.calculate_next();
    assert_eq!(report.outcome, Outcome::Overflow);
    assert_eq!(searcher.current_index, 5);
    assert_eq!(searcher.steps, u128::MAX);
    assert_eq!(searcher.unvalidated_searches.intervals(), vec![]);
}

#[test]
fn checkpoint_comes_at_the_first_step_only() {
    let mut searcher = CollatzSearcher::new(5);
    let report = searcher.calculate_next();
    let checkpoint = report.checkpoint.expect("a checkpoint is due at step 0");
    assert_eq!(checkpoint.steps, 0);
    assert_eq!(checkpoint.validated, vec![(1, 4)]);
    for _ in 0..20 {
        assert!(searcher.calculate_next().checkpoint.is_none());
    }
}

#[test]
fn checkpoint_comes_every_report_interval() {
    assert_eq!(REPORT_INTERVAL, 10000);
    let mut searcher = CollatzSearcher::new(5);
    let mut seen = Vec::new();
    for _ in 0..25000 {
        let report = searcher.calculate_next();
        if let Some(checkpoint) = report.checkpoint {
            let mut sorted = checkpoint.validated.clone();
            sorted.sort();
            assert_eq!(checkpoint.validated, sorted);
            seen.push(checkpoint.steps);
        }
        assert!(matches!(
            report.outcome,
            Outcome::Continue | Outcome::Validated { .. }
        ));
    }
    assert_eq!(seen, vec![0, 10000, 20000]);
    assert_eq!(searcher.steps, 25000);
}

#[test]
fn checkpoint_is_a_sorted_copy() {
    let mut searcher = CollatzSearcher::empty(5);
    let mut validated = RangeList::new();
    for v in [40u128, 10, 11, 30, 20] {
        validated.add(v);
    }
    searcher.validated_searches = validated;
    searcher.steps = 3 * REPORT_INTERVAL;
    let report = searcher.calculate_next();
    let checkpoint = report.checkpoint.expect("a checkpoint is due");
    assert_eq!(checkpoint.steps, 30000);
    assert_eq!(checkpoint.validated, vec![(10, 11), (20, 20), (30, 30), (40, 40)]);
    assert_eq!(report.outcome, Outcome::Continue);
    assert_eq!(
        searcher.validated_searches.intervals(),
        vec![(40, 40), (10, 11), (30, 30), (20, 20)]
    );
    assert_eq!(searcher.steps, 30001);
}

#[test]
fn checkpoint_comes_with_an_overflow_too() {
    let mut searcher = CollatzSearcher::new(u128::MAX);
    let report = searcher.calculate_next();
    assert_eq!(report.outcome, Outcome::Overflow);
    let checkpoint = report.checkpoint.expect("a checkpoint is due at step 0");
    assert_eq!(checkpoint.steps, 0);
    assert_eq!(checkpoint.validated, vec![(1, 4)]);
}
