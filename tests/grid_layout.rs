use duty_roster::view_state::ViewState;
use duty_roster::{Job, Roster, Slot};

fn house() -> ViewState {
    let roster = Roster::new(vec![Job::new(0, 3, 1), Job::new(1, 2, 3)], 10);
    ViewState {
        roster,
        job_names: vec!["Kitchen".to_owned(), "Hallway".to_owned()],
        person_names: vec!["Binky".to_owned(), "Steve".to_owned()],
        focused_field: (0, 0),
    }
}

#[test]
fn columns_per_job() {
    let view = house();
    assert_eq!(view.job_cols_needed(), 5);
    assert_eq!(view.col_job_name(0), "Kitchen");
    assert_eq!(view.col_job_name(2), "Kitchen");
    assert_eq!(view.col_job_name(3), "Hallway");
    assert_eq!(view.col_job_name(4), "Hallway");
    assert_eq!(
        view.job_col_names(),
        vec!["Kitchen", "Kitchen", "Kitchen", "Hallway", "Hallway"]
    );
}

#[test]
fn column_width_from_names() {
    let view = house();
    assert_eq!(view.max_col_width(), 7);
}

#[test]
fn column_width_from_week_numbers() {
    let roster = Roster::new(vec![Job::new(0, 1, 1)], 1000);
    let view = ViewState {
        roster,
        job_names: vec!["K".to_owned()],
        person_names: vec!["B".to_owned()],
        focused_field: (0, 0),
    };
    assert_eq!(view.max_col_width(), 3);
    let short = ViewState {
        roster: Roster::new(vec![Job::new(0, 1, 1)], 1),
        job_names: vec!["K".to_owned()],
        person_names: vec!["B".to_owned()],
        focused_field: (0, 0),
    };
    assert_eq!(short.max_col_width(), 2);
}

#[test]
fn column_width_counts_bytes() {
    let view = ViewState {
        roster: Roster::new(vec![Job::new(0, 1, 1)], 2),
        job_names: vec!["Küche".to_owned()],
        person_names: vec!["Bo".to_owned()],
        focused_field: (0, 0),
    };
    assert_eq!(view.max_col_width(), 6);
}

#[test]
fn fields_name_people_and_pad_free_places() {
    let mut view = house();
    let kitchen = view.roster.jobs()[0];
    let hallway = view.roster.jobs()[1];
    assert_eq!(view.roster.append_to_slot(0, &Slot { week: 0, job: kitchen }), Ok(()));
    assert_eq!(view.roster.append_to_slot(1, &Slot { week: 3, job: hallway }), Ok(()));
    assert_eq!(
        view.get_fields_for_week(0),
        vec![Some("Binky".to_owned()), None, None, None, None]
    );
    assert_eq!(
        view.get_fields_for_week(3),
        vec![None, None, None, Some("Steve".to_owned()), None]
    );
    assert_eq!(view.get_fields_for_week(1), vec![None; 5]);
}
