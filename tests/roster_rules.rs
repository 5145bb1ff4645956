use duty_roster::{Conflict, Field, Job, Roster, RosterError, Slot};

fn slot(week: u32, job: Job) -> Slot {
    Slot { week, job }
}

#[test]
fn job_new_keeps_fields() {
    let job = Job::new(7, 3, 2);
    assert_eq!(job.id, 7);
    assert_eq!(job.num_people, 3);
    assert_eq!(job.period, 2);
}

#[test]
fn new_roster_is_empty() {
    let kitchen = Job::new(0, 1, 1);
    let roster = Roster::new(vec![kitchen], 3);
    assert_eq!(roster.num_weeks(), 3);
    assert_eq!(roster.jobs().len(), 1);
    for week in 0..3 {
        assert!(roster.get_assigned(&slot(week, kitchen)).is_empty());
        assert!(roster.get_assigned_in_week(week).is_empty());
    }
}

#[test]
fn append_fills_in_scan_order() {
    let kitchen = Job::new(0, 1, 1);
    let hallway = Job::new(1, 1, 1);
    let mut roster = Roster::new(vec![kitchen, hallway], 2);
    assert_eq!(roster.append(10), Ok(slot(0, kitchen)));
    assert_eq!(roster.append(11), Ok(slot(0, hallway)));
    assert_eq!(roster.append(12), Ok(slot(1, kitchen)));
    assert_eq!(roster.get_assigned(&slot(0, kitchen)), vec![10]);
    assert_eq!(roster.get_assigned(&slot(0, hallway)), vec![11]);
    assert_eq!(roster.get_assigned(&slot(1, kitchen)), vec![12]);
    assert_eq!(roster.get_open_slot(), Some(slot(1, hallway)));
    assert_eq!(roster.append(13), Ok(slot(1, hallway)));
    assert_eq!(roster.get_open_slot(), None);
    assert_eq!(roster.append(14), Err(RosterError::RosterFull));
}

#[test]
fn append_skips_weeks_where_a_job_does_not_recur() {
    let kitchen = Job::new(0, 1, 2);
    let mut roster = Roster::new(vec![kitchen], 4);
    assert_eq!(roster.append(1), Ok(slot(0, kitchen)));
    assert_eq!(roster.append(2), Ok(slot(2, kitchen)));
    assert_eq!(roster.append(3), Err(RosterError::RosterFull));
}

#[test]
fn slot_fills_to_capacity() {
    let job = Job::new(0, 2, 1);
    let mut roster = Roster::new(vec![job], 1);
    let s = slot(0, job);
    assert_eq!(roster.append_to_slot(1, &s), Ok(()));
    assert!(roster.is_slot_open(&s));
    assert_eq!(roster.append_to_slot(2, &s), Ok(()));
    assert!(!roster.is_slot_open(&s));
    assert_eq!(roster.num_people_in_slot(&s), 2);
    assert_eq!(roster.append_to_slot(3, &s), Err(RosterError::SlotFull));
    assert_eq!(roster.get_assigned(&s), vec![1, 2]);
}

#[test]
fn previous_occurrence_blocks_fit() {
    let job = Job::new(0, 1, 2);
    let mut roster = Roster::new(vec![job], 4);
    let x = 5;
    assert_eq!(roster.append_to_slot(x, &slot(0, job)), Ok(()));
    assert!(!roster.fits(&slot(2, job), x));
    assert_eq!(roster.check_fit(&slot(2, job), x), Ok(Some(Conflict::Previous)));
    assert_eq!(roster.check_fit(&slot(1, job), x), Err(RosterError::SlotInvalid));
    assert!(roster.fits(&slot(2, job), 6));
}

#[test]
fn next_occurrence_and_same_week_block_fit() {
    let kitchen = Job::new(0, 1, 1);
    let hallway = Job::new(1, 1, 1);
    let mut roster = Roster::new(vec![kitchen, hallway], 3);
    assert_eq!(roster.append_to_slot(4, &slot(2, kitchen)), Ok(()));
    assert_eq!(roster.check_fit(&slot(1, kitchen), 4), Ok(Some(Conflict::Next)));
    assert_eq!(roster.check_fit(&slot(2, hallway), 4), Ok(Some(Conflict::SameWeek)));
    assert!(!roster.fits(&slot(2, kitchen), 4));
    assert!(roster.fits(&slot(0, kitchen), 4));
    assert_eq!(roster.check_fit(&slot(0, hallway), 4), Ok(None));
}

#[test]
fn validity_follows_period_and_catalogue() {
    let kitchen = Job::new(0, 1, 3);
    let stranger = Job::new(9, 1, 1);
    let roster = Roster::new(vec![kitchen], 10);
    assert!(roster.is_valid_slot(&slot(0, kitchen)));
    assert!(!roster.is_valid_slot(&slot(1, kitchen)));
    assert!(!roster.is_valid_slot(&slot(2, kitchen)));
    assert!(roster.is_valid_slot(&slot(3, kitchen)));
    assert!(roster.is_valid_slot(&slot(9, kitchen)));
    assert!(!roster.is_valid_slot(&slot(0, stranger)));
}

#[test]
fn week_lists_only_jobs_that_recur() {
    let weekly = Job::new(0, 1, 1);
    let biweekly = Job::new(1, 2, 2);
    let mut roster = Roster::new(vec![weekly, biweekly], 4);
    assert_eq!(roster.append_to_slot(1, &slot(2, weekly)), Ok(()));
    assert_eq!(roster.append_to_slot(2, &slot(2, biweekly)), Ok(()));
    assert_eq!(roster.append_to_slot(3, &slot(2, biweekly)), Ok(()));
    assert_eq!(roster.append_to_slot(4, &slot(3, weekly)), Ok(()));
    assert_eq!(roster.append_to_slot(5, &slot(3, biweekly)), Err(RosterError::SlotInvalid));
    assert_eq!(roster.get_assigned_in_week(2), vec![1, 2, 3]);
    assert_eq!(roster.get_assigned_in_week(3), vec![4]);
    assert!(roster.get_assigned_in_week(1).is_empty());
}

#[test]
fn placement_beyond_horizon_or_catalogue_is_invalid() {
    let kitchen = Job::new(0, 1, 1);
    let stranger = Job::new(9, 1, 1);
    let mut roster = Roster::new(vec![kitchen], 2);
    assert_eq!(roster.append_to_slot(1, &slot(2, kitchen)), Err(RosterError::SlotInvalid));
    assert_eq!(roster.append_to_slot(1, &slot(0, stranger)), Err(RosterError::SlotInvalid));
    assert!(roster.get_assigned(&slot(2, kitchen)).is_empty());
    assert!(roster.get_assigned(&slot(0, stranger)).is_empty());
}

#[test]
fn checked_placement_refuses_conflicts() {
    let kitchen = Job::new(0, 2, 1);
    let mut roster = Roster::new(vec![kitchen], 2);
    assert_eq!(roster.append_to_slot_checked(1, &slot(0, kitchen)), Ok(()));
    assert_eq!(
        roster.append_to_slot_checked(1, &slot(0, kitchen)),
        Err(RosterError::NoFit(Conflict::SameWeek))
    );
    assert_eq!(
        roster.append_to_slot_checked(1, &slot(1, kitchen)),
        Err(RosterError::NoFit(Conflict::Previous))
    );
    assert_eq!(roster.append_to_slot_checked(2, &slot(1, kitchen)), Ok(()));
    assert_eq!(roster.get_assigned(&slot(0, kitchen)), vec![1]);
    assert_eq!(roster.get_assigned(&slot(1, kitchen)), vec![2]);
}

#[test]
fn removing_an_absent_person_changes_nothing() {
    let kitchen = Job::new(0, 3, 1);
    let mut roster = Roster::new(vec![kitchen], 1);
    let s = slot(0, kitchen);
    assert_eq!(roster.append_to_slot(1, &s), Ok(()));
    assert_eq!(roster.append_to_slot(2, &s), Ok(()));
    assert!(!roster.remove_from_slot(3, &s));
    assert_eq!(roster.get_assigned(&s), vec![1, 2]);
    assert!(!roster.remove_from_slot(3, &slot(5, kitchen)));
}

#[test]
fn place_then_remove_restores_slot() {
    let kitchen = Job::new(0, 3, 1);
    let mut roster = Roster::new(vec![kitchen], 1);
    let s = slot(0, kitchen);
    assert_eq!(roster.append_to_slot(1, &s), Ok(()));
    assert_eq!(roster.append_to_slot(2, &s), Ok(()));
    let before = roster.get_assigned(&s);
    assert_eq!(roster.append_to_slot(1, &s), Ok(()));
    assert_eq!(roster.get_assigned(&s), vec![1, 2, 1]);
    assert!(roster.remove_from_slot(1, &s));
    assert_eq!(roster.get_assigned(&s), before);
    assert!(roster.remove_from_slot(1, &s));
    assert_eq!(roster.get_assigned(&s), vec![2]);
    assert!(roster.is_slot_open(&s));
}

#[test]
fn neighbours_stop_at_both_ends() {
    let job = Job::new(0, 1, 2);
    let roster = Roster::new(vec![job], 5);
    assert_eq!(roster.get_previous(&slot(0, job)), None);
    assert_eq!(roster.get_previous(&slot(2, job)), Some(slot(0, job)));
    assert_eq!(roster.get_next(&slot(2, job)), Some(slot(4, job)));
    assert_eq!(roster.get_next(&slot(4, job)), None);
    let long = Job::new(1, 1, u32::MAX);
    assert_eq!(roster.get_next(&slot(u32::MAX, long)), None);
}

#[test]
fn field_lookup_by_index() {
    let job = Job::new(0, 2, 1);
    let mut roster = Roster::new(vec![job], 1);
    let s = slot(0, job);
    assert_eq!(roster.append_to_slot(8, &s), Ok(()));
    assert_eq!(roster.append_to_slot(9, &s), Ok(()));
    assert_eq!(roster.get_assigned_in_field(&Field { slot: s, index: 0 }), Some(8));
    assert_eq!(roster.get_assigned_in_field(&Field { slot: s, index: 1 }), Some(9));
    assert_eq!(roster.get_assigned_in_field(&Field { slot: s, index: 2 }), None);
}

#[test]
fn streakers_come_from_the_week_before_the_previous_occurrence() {
    let rare = Job::new(0, 3, 2);
    let weekly = Job::new(1, 1, 1);
    let mut roster = Roster::new(vec![rare, weekly], 6);
    assert_eq!(roster.append_to_slot(1, &slot(1, weekly)), Ok(()));
    assert_eq!(roster.append_to_slot(2, &slot(2, weekly)), Ok(()));
    let s = slot(4, rare);
    assert_eq!(roster.append_to_slot(2, &s), Ok(()));
    assert_eq!(roster.append_to_slot(1, &s), Ok(()));
    assert_eq!(roster.append_to_slot(3, &s), Ok(()));
    assert_eq!(roster.get_streakers(&s), vec![1]);
    assert!(roster.get_streakers(&slot(2, rare)).is_empty());
    assert!(roster.get_streakers(&slot(0, rare)).is_empty());
}
