use waterui_gtk::components::controls::picker::{
    position, radio_selection_changed, radio_toggled, rebuild_radio_group, refresh_items,
    selected_notify, selection_changed, INVALID_LIST_POSITION,
};

#[test]
fn a_refresh_follows_the_value() {
    assert_eq!(refresh_items(&vec![], 5), INVALID_LIST_POSITION);
    assert_eq!(refresh_items(&vec![3, 5, 5, 9], 5), 1);
    assert_eq!(refresh_items(&vec![3, 5, 9], 7), 0);
    assert_eq!(position(&vec![3, 5, 5], 5), Some(1));
    assert_eq!(position(&vec![3, 5, 5], 4), None);
}

#[test]
fn both_sides_stay_in_step() {
    let ids = vec![3, 5, 9];
    assert_eq!(selected_notify(&ids, 2, 3), Some(9));
    assert_eq!(selected_notify(&ids, 2, 9), None);
    assert_eq!(selected_notify(&ids, INVALID_LIST_POSITION, 9), None);
    assert_eq!(selection_changed(&ids, 0, 9), Some(2));
    assert_eq!(selection_changed(&ids, 2, 9), None);
    assert_eq!(selection_changed(&ids, 2, 4), None);
    // What either side does is not echoed.
    let value = selected_notify(&ids, 2, 3).unwrap();
    assert_eq!(selection_changed(&ids, 2, value), None);
    let moved = selection_changed(&ids, 0, 9).unwrap();
    assert_eq!(selected_notify(&ids, moved, 9), None);
}

#[test]
fn radio_buttons_follow_the_value() {
    let ids = vec![3, 5, 9];
    assert_eq!(rebuild_radio_group(&ids, 5), Some(1));
    assert_eq!(rebuild_radio_group(&ids, 6), None);
    assert_eq!(radio_toggled(5, true, 3), Some(5));
    assert_eq!(radio_toggled(5, true, 5), None);
    assert_eq!(radio_toggled(5, false, 3), None);
    assert_eq!(radio_selection_changed(&ids, &vec![true, false, false], 9), Some(2));
    assert_eq!(radio_selection_changed(&ids, &vec![false, false, true], 9), None);
    assert_eq!(radio_selection_changed(&ids, &vec![true, false], 9), None);
    assert_eq!(radio_selection_changed(&ids, &vec![true, false, false], 4), None);
}
