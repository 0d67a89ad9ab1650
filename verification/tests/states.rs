use data_sampler::state::{
    menu_answer, menu_change, picked_file, progress_due, ApplicationState, MenuAnswer, StateChange,
};

#[test]
fn menu_offers_the_analysis() {
    assert_eq!(ApplicationState::menu_options(), vec![ApplicationState::MinMax]);
}

#[test]
fn labels_name_the_screens() {
    assert_eq!(ApplicationState::Menu.label(), "Back to Menu");
    assert_eq!(ApplicationState::Selecting.label(), "Open a different File");
    assert_eq!(ApplicationState::Close.label(), "Exit the analyzer");
    assert_eq!(ApplicationState::MinMax.label(), "Analyze minimium and maximium values");
}

#[test]
fn new_change_stays_on_the_screen() {
    let change = StateChange::new(String::from("input/a.csv"));
    assert_eq!(change.change, None);
    assert_eq!(*change.value, "input/a.csv");
}

#[test]
fn switch_names_the_next_screen() {
    let change = StateChange::switch(5u8, ApplicationState::Menu);
    assert_eq!(change.change, Some(ApplicationState::Menu));
    assert_eq!(*change.value, 5);
    let unit = StateChange::switch((), ApplicationState::Close);
    assert_eq!(unit.change, Some(ApplicationState::Close));
}

#[test]
fn follow_goes_where_the_change_says() {
    assert_eq!(
        ApplicationState::Menu.follow(Some(ApplicationState::MinMax)),
        ApplicationState::MinMax
    );
    assert_eq!(ApplicationState::Selecting.follow(None), ApplicationState::Selecting);
}

#[test]
fn only_close_is_last() {
    assert!(ApplicationState::Close.is_last());
    assert!(!ApplicationState::Menu.is_last());
    assert!(!ApplicationState::Selecting.is_last());
    assert!(!ApplicationState::MinMax.is_last());
}

#[test]
fn menu_goes_back_on_the_back_key() {
    assert_eq!(menu_answer(true, false, None, 1), MenuAnswer::Back);
    assert_eq!(menu_answer(true, false, Some(1), 1), MenuAnswer::Back);
}

#[test]
fn menu_accepts_the_numbers_of_its_options() {
    assert_eq!(menu_answer(false, false, Some(1), 1), MenuAnswer::Accept);
    assert_eq!(menu_answer(false, false, Some(3), 3), MenuAnswer::Accept);
    assert_eq!(menu_answer(false, false, Some(0), 1), MenuAnswer::Retry);
    assert_eq!(menu_answer(false, false, Some(2), 1), MenuAnswer::Retry);
    assert_eq!(menu_answer(false, false, Some(usize::MAX), usize::MAX), MenuAnswer::Accept);
    assert_eq!(menu_answer(false, false, None, 1), MenuAnswer::Retry);
}

#[test]
fn menu_lets_a_line_without_bytes_through() {
    assert_eq!(menu_answer(false, true, None, 1), MenuAnswer::Accept);
}

#[test]
fn menu_change_follows_the_answer() {
    assert_eq!(
        menu_change(MenuAnswer::Back).map(|c| c.change),
        Some(Some(ApplicationState::Selecting))
    );
    assert_eq!(
        menu_change(MenuAnswer::Accept).map(|c| c.change),
        Some(Some(ApplicationState::MinMax))
    );
    assert!(menu_change(MenuAnswer::Retry).is_none());
}

#[test]
fn picked_file_must_be_below_the_count() {
    assert_eq!(picked_file(Some(0), 1), Some(0));
    assert_eq!(picked_file(Some(2), 3), Some(2));
    assert_eq!(picked_file(Some(3), 3), None);
    assert_eq!(picked_file(Some(0), 0), None);
    assert_eq!(picked_file(None, 3), None);
}

#[test]
fn progress_is_due_at_each_part() {
    assert!(progress_due(0, 100, 20));
    assert!(progress_due(5, 100, 20));
    assert!(!progress_due(6, 100, 20));
    assert!(progress_due(95, 100, 20));
    assert!(progress_due(3, 7, 7));
    assert!(progress_due(3, 39, 20));
    assert!(!progress_due(3, 40, 20));
    assert!(progress_due(4, 40, 20));
}
