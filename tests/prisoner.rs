use illuminated_inmates::prisoner::{count_true, Prisoner};

#[test]
fn count_true_counts_set_entries() {
    assert_eq!(count_true(&[]), 0);
    assert_eq!(count_true(&[false, false]), 0);
    assert_eq!(count_true(&[true, false, true, true]), 3);
}

#[test]
fn new_prisoner_knows_nothing() {
    let p = Prisoner::new(4);
    assert_eq!(p.known_visited_prisoners, vec![false; 4]);
    assert_eq!(p.count_known(), 0);
}

#[test]
fn todays_prisoner_is_day_modulo_count() {
    let p = Prisoner::new(5);
    assert_eq!(p.get_todays_prisoner_indexes(0), vec![0]);
    assert_eq!(p.get_todays_prisoner_indexes(7), vec![2]);
    assert_eq!(p.get_todays_prisoner_indexes(10), vec![0]);
}

#[test]
fn prisoner_learns_itself_and_reports_todays_slot() {
    let mut p = Prisoner::new(3);
    // Day 1 is about prisoner 1: the prisoner itself.
    assert!(p.select_light_position(1, false, 1));
    assert_eq!(p.known_visited_prisoners, vec![false, true, false]);
    assert_eq!(p.count_known(), 1);
}

#[test]
fn light_on_teaches_yesterdays_prisoner() {
    let mut p = Prisoner::new(3);
    // Day 2, light on: yesterday's prisoner (1) has been interrogated.
    let light = p.select_light_position(2, true, 0);
    assert_eq!(p.known_visited_prisoners, vec![true, true, false]);
    // Day 2 is about prisoner 2, which this prisoner does not know of.
    assert!(!light);
}

#[test]
fn light_on_the_first_day_teaches_nothing() {
    let mut p = Prisoner::new(3);
    let light = p.select_light_position(0, true, 2);
    assert_eq!(p.known_visited_prisoners, vec![false, false, true]);
    assert!(!light);
}

#[test]
fn light_off_teaches_nothing() {
    let mut p = Prisoner::new(4);
    let light = p.select_light_position(5, false, 3);
    assert_eq!(p.known_visited_prisoners, vec![false, false, false, true]);
    assert!(!light);
}

#[test]
fn previous_day_wraps_around_the_count() {
    let mut p = Prisoner::new(3);
    // Day 3: yesterday was day 2, about prisoner 2; today is about prisoner 0.
    let light = p.select_light_position(3, true, 0);
    assert_eq!(p.known_visited_prisoners, vec![true, false, true]);
    assert!(light);
}
