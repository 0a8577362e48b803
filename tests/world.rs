use illuminated_inmates::world::{run_simulation, SimulationError, SimulationResult, WorldState};

/// A fixed choice of prisoners, two days per prisoner, through which the last
/// prisoner learns of every other one: on a day about prisoner `r`, `r`
/// itself is chosen, and on the next day the last prisoner.
fn relay_sequence(p: usize) -> Vec<usize> {
    let z = p - 1;
    let mut days = vec![z; 2 * p];
    for r in 0..z {
        let h = if r % 2 == 0 { r } else { r + p };
        days[h] = r;
    }
    days
}

fn run_fixed(p: usize, days: &[usize]) -> WorldState {
    let mut w = WorldState::new(p);
    for &c in days {
        if w.iterate_with(c) == Ok(true) {
            break;
        }
    }
    w
}

#[test]
fn new_world_is_empty() {
    let w = WorldState::new(3);
    assert_eq!(w.prisoners.len(), 3);
    assert_eq!(w.interrogated_prisoners, vec![false; 3]);
    assert_eq!(w.day, 0);
    assert!(!w.light_is_on);
    assert!(!w.freed);
    assert_eq!(w.last_prisoner_interrogated_on_day, None);
    assert_eq!(w.best_known(), 0);
}

#[test]
fn one_day_records_truth_and_light() {
    let mut w = WorldState::new(3);
    assert_eq!(w.iterate_with(0), Ok(false));
    assert_eq!(w.interrogated_prisoners, vec![true, false, false]);
    assert_eq!(w.prisoners[0].known_visited_prisoners, vec![true, false, false]);
    // Day 0 is about prisoner 0, whom prisoner 0 knows of.
    assert!(w.light_is_on);
    assert_eq!(w.day, 1);
    assert_eq!(w.best_known(), 1);
}

#[test]
fn light_relays_to_the_next_prisoner() {
    let mut w = WorldState::new(3);
    assert_eq!(w.iterate_with(0), Ok(false));
    assert_eq!(w.iterate_with(1), Ok(false));
    assert_eq!(w.prisoners[1].known_visited_prisoners, vec![true, true, false]);
    assert_eq!(w.best_known(), 2);
    assert_eq!(w.day, 2);
}

#[test]
fn all_interrogated_day_is_recorded_once() {
    let mut w = WorldState::new(2);
    assert_eq!(w.iterate_with(1), Ok(false));
    assert_eq!(w.last_prisoner_interrogated_on_day, None);
    // Day 1: prisoner 0 comes; the light (left off: day 0 was about 0) says nothing.
    assert_eq!(w.iterate_with(0), Ok(false));
    assert_eq!(w.last_prisoner_interrogated_on_day, Some(1));
    assert_eq!(w.iterate_with(0), Ok(false));
    assert_eq!(w.last_prisoner_interrogated_on_day, Some(1));
}

#[test]
fn two_prisoners_freed_by_relay() {
    let mut w = WorldState::new(2);
    assert_eq!(w.iterate_with(0), Ok(false));
    assert_eq!(w.iterate_with(1), Ok(true));
    assert!(w.freed);
    assert_eq!(w.day, 1);
    assert_eq!(
        w.result(),
        SimulationResult { last_prisoner_interrogated_on_day: 1, prisoners_freed_on_day: 1 }
    );
}

#[test]
fn freed_world_stays_put() {
    let mut w = WorldState::new(1);
    assert_eq!(w.iterate_with(0), Ok(true));
    assert_eq!(w.iterate_with(0), Ok(true));
    assert_eq!(w.day, 0);
    assert_eq!(w.run(5), Ok(true));
}

#[test]
fn day_limit_is_an_error() {
    let mut w = WorldState::new(3);
    w.day = u32::MAX;
    assert_eq!(w.iterate_with(0), Err(SimulationError::DayLimitReached));
    assert_eq!(w.day, u32::MAX);
    assert_eq!(w.interrogated_prisoners, vec![false; 3]);
}

#[test]
fn fixed_relay_frees_within_two_rounds() {
    for p in 1..=12 {
        let days = relay_sequence(p);
        assert_eq!(days.len(), 2 * p);
        let w = run_fixed(p, &days);
        assert!(w.freed, "not freed with {} prisoners", p);
        assert!(w.day as usize <= 2 * p - 1);
        let r = w.result();
        assert!(r.last_prisoner_interrogated_on_day <= r.prisoners_freed_on_day);
    }
}

#[test]
fn random_day_interrogates_one_prisoner_in_range() {
    for _ in 0..200 {
        let mut w = WorldState::new(3);
        assert_eq!(w.iterate(), Ok(false));
        let seen: Vec<usize> = (0..3).filter(|&i| w.interrogated_prisoners[i]).collect();
        assert_eq!(seen.len(), 1);
        assert_eq!(w.prisoners[seen[0]].count_known(), 1);
    }
}

#[test]
fn single_prisoner_freed_on_day_zero() {
    for _ in 0..1000 {
        assert_eq!(
            run_simulation(1),
            Ok(SimulationResult { last_prisoner_interrogated_on_day: 0, prisoners_freed_on_day: 0 })
        );
    }
}

#[test]
fn no_prisoners_is_rejected() {
    assert_eq!(run_simulation(0), Err(SimulationError::NoPrisoners));
}

#[test]
fn belief_never_precedes_truth() {
    for &p in &[2usize, 3, 5, 10] {
        for _ in 0..500 {
            let r = run_simulation(p).unwrap();
            assert!(r.last_prisoner_interrogated_on_day <= r.prisoners_freed_on_day);
            assert!(r.last_prisoner_interrogated_on_day as usize >= p - 1);
        }
    }
}

#[test]
fn no_prisoner_overestimates_across_many_trials() {
    for &(p, trials) in &[(1usize, 10000), (2, 10000), (10, 2000), (30, 20)] {
        for _ in 0..trials {
            let mut w = WorldState::new(p);
            loop {
                let done = w.iterate().unwrap();
                let actual = w.interrogated_prisoners.iter().filter(|&&b| b).count() as u32;
                assert!(w.best_known() <= actual);
                if done {
                    break;
                }
            }
        }
    }
}

#[test]
fn all_interrogated_day_follows_coupon_collector() {
    let p = 10usize;
    let trials = 4000;
    let mut total = 0u64;
    for _ in 0..trials {
        total += run_simulation(p).unwrap().last_prisoner_interrogated_on_day as u64;
    }
    let mean = total as f64 / trials as f64;
    // Expected draws to see all ten: 10 * H(10) ~ 29.29; the day index is one less.
    let expected = p as f64 * (1..=p).map(|k| 1.0 / k as f64).sum::<f64>() - 1.0;
    assert!((mean - expected).abs() < 3.0, "mean {} expected {}", mean, expected);
}

#[test]
fn run_stops_on_log_days() {
    let mut w = WorldState::new(20);
    let mut previous = 0u32;
    loop {
        match w.run(7) {
            Ok(true) => break,
            Ok(false) => {
                assert!(!w.freed);
                assert_eq!(w.day, previous + 7);
                previous = w.day;
            }
            Err(e) => panic!("{:?}", e),
        }
    }
    assert!(w.freed);
    assert!(w.day < previous + 7);
}
