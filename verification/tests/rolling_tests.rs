use morsel_sink::rolling::check_input;
use morsel_sink::rolling::window_edges;
use morsel_sink::rolling::RollingOptionsFixedWindow;

#[test]
fn check_input_accepts_consistent_options() {
    assert!(check_input(3, 1).is_ok());
    assert!(check_input(3, 3).is_ok());
    assert!(check_input(0, 0).is_ok());
}

#[test]
fn check_input_rejects_more_periods_than_window() {
    let err = check_input(2, 3).unwrap_err();
    assert_eq!(err.window_size, 2);
    assert_eq!(err.min_periods, 3);
}

#[test]
fn default_options_use_a_window_of_three() {
    let opts = RollingOptionsFixedWindow::default();
    assert_eq!(opts.window_size, 3);
    assert_eq!(opts.min_periods, 1);
    assert!(!opts.center);
}

#[test]
fn window_edges_trailing() {
    // window ends at idx, clamped at the front
    assert_eq!(window_edges(0, 10, 3, false), (0, 1));
    assert_eq!(window_edges(1, 10, 3, false), (0, 2));
    assert_eq!(window_edges(2, 10, 3, false), (0, 3));
    assert_eq!(window_edges(5, 10, 3, false), (3, 3));
    assert_eq!(window_edges(9, 10, 3, false), (7, 3));
}

#[test]
fn window_edges_centered() {
    // a window of 4 keeps 2 elements to the right of idx, clamped at both
    // ends
    assert_eq!(window_edges(0, 10, 4, true), (0, 2));
    assert_eq!(window_edges(2, 10, 4, true), (0, 4));
    assert_eq!(window_edges(5, 10, 4, true), (3, 4));
    assert_eq!(window_edges(9, 10, 4, true), (7, 3));
    // an odd window keeps one more to the right than to the left
    assert_eq!(window_edges(5, 10, 3, true), (4, 3));
}
