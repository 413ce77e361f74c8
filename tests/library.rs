use seird_math::compartment::{Compartment, COMPARTMENTS};
use seird_math::config::{select_mode, validate_shapes, Mode, Variant};
use seird_math::driver::{run, Phase};
use std::cell::RefCell;
use seird_math::error::{ConfigFault, ScheduleEntry, SeirdError};
use seird_math::schedule::{group_of_key, is_efficacy_key, locate_schedule};
use seird_math::trajectory::Trajectory;

#[test]
fn compartment_order() {
    assert_eq!(Compartment::Susceptible.index(), 0);
    assert_eq!(Compartment::Exposed.index(), 1);
    assert_eq!(Compartment::SymptomaticInfectious.index(), 2);
    assert_eq!(Compartment::AsymptomaticInfectious.index(), 3);
    assert_eq!(Compartment::Recovered.index(), 4);
    assert_eq!(Compartment::Deceased.index(), 5);
    assert_eq!(COMPARTMENTS, 6);
}

#[test]
fn mode_selection() {
    assert_eq!(select_mode(false, false), Mode::NoVaccination);
    assert_eq!(select_mode(false, true), Mode::NoVaccination);
    assert_eq!(select_mode(true, false), Mode::Basic);
    assert_eq!(select_mode(true, true), Mode::SplitExposed);
    assert_eq!(Mode::NoVaccination.variant(), Variant::Basic);
    assert_eq!(Mode::Basic.variant(), Variant::Basic);
    assert_eq!(Mode::SplitExposed.variant(), Variant::SplitExposed);
    assert!(!Mode::NoVaccination.vaccinates());
    assert!(Mode::Basic.vaccinates());
    assert!(Mode::SplitExposed.vaccinates());
}

#[test]
fn shapes_accepted() {
    assert_eq!(validate_shapes((8, 6), (7, 8), (8, 8)), Ok(8));
    assert_eq!(validate_shapes((1, 6), (7, 1), (1, 1)), Ok(1));
}

#[test]
fn shapes_rejected() {
    let bad = |f| Err(SeirdError::InvalidConfiguration(f));
    assert_eq!(validate_shapes((8, 5), (7, 8), (8, 8)), bad(ConfigFault::InitialStateShape));
    assert_eq!(validate_shapes((6, 8), (7, 8), (8, 8)), bad(ConfigFault::InitialStateShape));
    assert_eq!(validate_shapes((8, 6), (6, 8), (8, 8)), bad(ConfigFault::CoefficientShape));
    assert_eq!(validate_shapes((8, 6), (7, 7), (8, 8)), bad(ConfigFault::CoefficientShape));
    assert_eq!(validate_shapes((8, 6), (7, 8), (8, 7)), bad(ConfigFault::ContactShape));
    assert_eq!(validate_shapes((8, 6), (7, 8), (7, 8)), bad(ConfigFault::ContactShape));
}

#[test]
fn group_keys() {
    assert_eq!(group_of_key("age_grp_1", 8), Some(0));
    assert_eq!(group_of_key("age_grp_8", 8), Some(7));
    assert_eq!(group_of_key("age_grp_10", 10), Some(9));
    assert_eq!(group_of_key("age_grp_10", 9), None);
    assert_eq!(group_of_key("age_grp_9", 8), None);
    assert_eq!(group_of_key("age_grp_0", 8), None);
    assert_eq!(group_of_key("age_grp_01", 8), None);
    assert_eq!(group_of_key("age_grp_", 8), None);
    assert_eq!(group_of_key("age_grp_1x", 8), None);
    assert_eq!(group_of_key("age-grp_1", 8), None);
    assert_eq!(group_of_key("eff", 8), None);
    assert_eq!(group_of_key("", 8), None);
    assert_eq!(group_of_key("age_grp_99999999999999999999999999", 8), None);
    assert_eq!(group_of_key("age_grp_1", 0), None);
}

#[test]
fn efficacy_key() {
    assert!(is_efficacy_key("eff"));
    assert!(!is_efficacy_key("ef"));
    assert!(!is_efficacy_key("efff"));
    assert!(!is_efficacy_key("Eff"));
    assert!(!is_efficacy_key(""));
}

fn keys(names: &[&str]) -> Vec<String> {
    names.iter().map(|s| s.to_string()).collect()
}

#[test]
fn schedule_located() {
    let k = keys(&["eff", "age_grp_2", "age_grp_1", "age_grp_2"]);
    let index = locate_schedule(&k, &vec![1, 3, 3, 1], 2).unwrap();
    assert_eq!(index.group_entry(0), 2);
    assert_eq!(index.group_entry(1), 1);
    assert_eq!(index.efficacy_entry(), 0);
}

#[test]
fn schedule_missing_group() {
    let k = keys(&["age_grp_1", "age_grp_3", "eff"]);
    let r = locate_schedule(&k, &vec![3, 3, 1], 3);
    assert!(matches!(r, Err(SeirdError::MissingScheduleEntry(ScheduleEntry::Group(1)))));
}

#[test]
fn schedule_missing_efficacy() {
    let k = keys(&["age_grp_1", "age_grp_2"]);
    let r = locate_schedule(&k, &vec![3, 3], 2);
    assert!(matches!(r, Err(SeirdError::MissingScheduleEntry(ScheduleEntry::Efficacy))));
}

#[test]
fn schedule_wrong_entry_size() {
    let k = keys(&["age_grp_1", "age_grp_2", "eff"]);
    let r = locate_schedule(&k, &vec![3, 2, 1], 2);
    assert!(matches!(
        r,
        Err(SeirdError::InvalidConfiguration(ConfigFault::ScheduleEntryShape))
    ));
    let r = locate_schedule(&k, &vec![3, 3, 2], 2);
    assert!(matches!(
        r,
        Err(SeirdError::InvalidConfiguration(ConfigFault::ScheduleEntryShape))
    ));
}

#[test]
fn trajectory_layout() {
    let mut tr = Trajectory::new(3, 2, 0.0f64).unwrap();
    assert_eq!(tr.steps(), 3);
    assert_eq!(tr.groups(), 2);
    tr.set_state(1, 1, &vec![1.0, 2.0, 3.0, 4.0, 5.0, 6.0]);
    assert_eq!(tr.state(1, 1), vec![1.0, 2.0, 3.0, 4.0, 5.0, 6.0]);
    assert_eq!(tr.state(1, 0), vec![0.0; 6]);
    assert_eq!(tr.get(4, 1, 1), 5.0);
    assert_eq!(tr.compartment_row(2, 1), vec![0.0, 3.0]);
    let cells = tr.into_cells();
    assert_eq!(cells.len(), 36);
    // [compartment][step][group]: compartment c, step 1, group 1 sits at (c * 3 + 1) * 2 + 1.
    for c in 0..6 {
        assert_eq!(cells[(c * 3 + 1) * 2 + 1], (c + 1) as f64);
    }
    assert_eq!(cells.iter().filter(|v| **v != 0.0).count(), 6);
}

#[test]
fn trajectory_initial_condition() {
    let mut tr = Trajectory::new(2, 2, 0.0f64).unwrap();
    let y0 = vec![
        vec![990.0, 10.0, 0.0, 0.0, 0.0, 0.0],
        vec![500.0, 0.0, 1.0, 2.0, 3.0, 4.0],
    ];
    tr.load_initial(&y0);
    assert_eq!(tr.state(0, 0), y0[0]);
    assert_eq!(tr.state(0, 1), y0[1]);
    assert_eq!(tr.state(1, 0), vec![0.0; 6]);
    assert_eq!(tr.compartment_row(0, 0), vec![990.0, 500.0]);
}

#[test]
fn trajectory_too_large() {
    assert!(Trajectory::new(usize::MAX, 2, 0u8).is_none());
    assert!(Trajectory::new(usize::MAX / 6 + 1, 1, 0u8).is_none());
    assert!(Trajectory::new(usize::MAX, 0, 0u8).is_some());
    assert_eq!(Trajectory::new(0, 5, 0u8).unwrap().into_cells().len(), 0);
}

fn run_phases(steps: usize, groups: usize) -> Vec<(usize, usize)> {
    let mut visited = Vec::new();
    let mut phase = Phase::Initialized.advance(steps, groups);
    while let Phase::Stepping { step, group } = phase {
        visited.push((step, group));
        phase = phase.advance(steps, groups);
    }
    assert_eq!(phase, Phase::Complete);
    visited
}

#[test]
fn phases_row_major() {
    assert_eq!(
        run_phases(3, 2),
        vec![(0, 0), (0, 1), (1, 0), (1, 1)]
    );
    assert_eq!(run_phases(31, 1).len(), 30);
    assert_eq!(run_phases(31, 8).len(), 240);
    assert_eq!(run_phases(31, 8)[9], (1, 1));
}

#[test]
fn phases_empty_runs() {
    assert!(run_phases(1, 8).is_empty());
    assert!(run_phases(0, 8).is_empty());
    assert!(run_phases(5, 0).is_empty());
    assert_eq!(Phase::Complete.advance(5, 2), Phase::Complete);
}

#[test]
fn run_fills_every_later_step() {
    // Two groups, three steps; each update adds the sum of the infectious rows of the
    // previous step to every compartment.
    let mut tr = Trajectory::new(3, 2, 0u64).unwrap();
    tr.load_initial(&vec![vec![1, 0, 1, 0, 0, 0], vec![2, 0, 0, 3, 0, 0]]);
    let calls = RefCell::new(Vec::new());
    let r: Result<(), ()> = run(&mut tr, |t, g, y, sym, asym| {
        calls.borrow_mut().push((t, g));
        let pressure: u64 = sym.iter().sum::<u64>() + asym.iter().sum::<u64>();
        let mut next = [0u64; 6];
        for c in 0..6 {
            next[c] = y[c] + pressure;
        }
        Ok(next)
    });
    assert_eq!(r, Ok(()));
    assert_eq!(calls.into_inner(), vec![(0, 0), (0, 1), (1, 0), (1, 1)]);
    // Step 0 pressure is 1 + 3 = 4, for both groups alike.
    assert_eq!(tr.state(1, 0), vec![5, 4, 5, 4, 4, 4]);
    assert_eq!(tr.state(1, 1), vec![6, 4, 4, 7, 4, 4]);
    // Step 1 pressure is (5 + 4) + (4 + 7) = 20.
    assert_eq!(tr.state(2, 0), vec![25, 24, 25, 24, 24, 24]);
    assert_eq!(tr.state(2, 1), vec![26, 24, 24, 27, 24, 24]);
    assert_eq!(tr.state(0, 1), vec![2, 0, 0, 3, 0, 0]);
}

#[test]
fn run_stops_at_first_failure() {
    let mut tr = Trajectory::new(4, 2, 0i32).unwrap();
    let r = run(&mut tr, |t, g, y, _sym, _asym| {
        if t == 1 && g == 1 {
            Err(SeirdError::NumericOverflow)
        } else {
            let mut next = [0i32; 6];
            next.copy_from_slice(y);
            next[0] += 1;
            Ok(next)
        }
    });
    assert_eq!(r, Err(SeirdError::NumericOverflow));
    assert_eq!(tr.get(0, 1, 1), 1);
    assert_eq!(tr.get(0, 2, 0), 2);
    assert_eq!(tr.get(0, 2, 1), 0);
    assert_eq!(tr.get(0, 3, 0), 0);
}

#[test]
fn run_single_step_does_nothing() {
    let mut tr = Trajectory::new(1, 3, 7u8).unwrap();
    let r: Result<(), ()> = run(&mut tr, |_, _, _, _, _| Err(()));
    assert_eq!(r, Ok(()));
    assert_eq!(tr.into_cells(), vec![7u8; 18]);
}

fn doubling_run(initial: &Vec<Vec<u64>>) -> Vec<u64> {
    let mut tr = Trajectory::new(4, initial.len(), 0u64).unwrap();
    tr.load_initial(initial);
    let r: Result<(), ()> = run(&mut tr, |_, g, y, sym, asym| {
        let mut next = [0u64; 6];
        for c in 0..6 {
            next[c] = 2 * y[c] + sym[g] + asym[(g + 1) % sym.len()];
        }
        Ok(next)
    });
    assert_eq!(r, Ok(()));
    tr.into_cells()
}

#[test]
fn run_twice_same_result() {
    let initial = vec![vec![3, 1, 4, 1, 5, 9], vec![2, 6, 5, 3, 5, 8], vec![9, 7, 9, 3, 2, 3]];
    let first = doubling_run(&initial);
    let second = doubling_run(&initial);
    assert_eq!(first, second);
    assert_eq!(first.len(), 6 * 4 * 3);
}
