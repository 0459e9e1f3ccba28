use lave_core::model::tabs::{Scope, closing, is_offered};

/// The usual arrangement: one pinned tab and three others.
const TABS: usize = 4;
const PINNED: usize = 1;

#[test]
fn closing_them_all_spares_the_pinned_ones() {
    assert_eq!(closing(Scope::All, TABS, 2, PINNED), vec![1, 2, 3]);
    assert!(is_offered(Scope::All, TABS, 2, PINNED));
}

#[test]
fn the_tabs_to_the_left_stop_at_the_pinned_ones() {
    assert_eq!(closing(Scope::ToLeft, TABS, 3, PINNED), vec![1, 2]);
    assert_eq!(closing(Scope::ToLeft, TABS, 2, PINNED), vec![1]);
}

#[test]
fn nothing_but_a_pinned_tab_to_the_left_is_not_offered() {
    // The user's own example: the environment's tab is to the left of the first one
    // that can be closed, and it is not going anywhere.
    assert_eq!(closing(Scope::ToLeft, TABS, 1, PINNED), Vec::<usize>::new());
    assert!(!is_offered(Scope::ToLeft, TABS, 1, PINNED));
}

#[test]
fn the_tabs_to_the_right_are_the_ones_after_it() {
    assert_eq!(closing(Scope::ToRight, TABS, 1, PINNED), vec![2, 3]);
    assert_eq!(closing(Scope::ToRight, TABS, 2, PINNED), vec![3]);
}

#[test]
fn the_last_tab_has_nothing_to_its_right() {
    assert!(!is_offered(Scope::ToRight, TABS, 3, PINNED));
}

#[test]
fn a_menu_on_a_pinned_tab_still_reaches_the_rest() {
    // Nothing to its left, since it is the leftmost; everything else to its right.
    assert!(!is_offered(Scope::ToLeft, TABS, 0, PINNED));
    assert_eq!(closing(Scope::ToRight, TABS, 0, PINNED), vec![1, 2, 3]);
}

#[test]
fn a_bar_holding_nothing_but_pinned_tabs_offers_none_of_it() {
    for scope in [Scope::All, Scope::ToLeft, Scope::ToRight] {
        assert!(!is_offered(scope, 1, 0, 1), "{}", scope.label());
        assert!(!is_offered(scope, 0, 0, 0), "{}", scope.label());
    }
}

#[test]
fn a_subject_past_the_end_is_treated_as_the_last_tab() {
    // Nothing should ask this, but a stale position must not produce a range that
    // closes tabs nobody pointed at.
    assert_eq!(
        closing(Scope::ToRight, TABS, 99, PINNED),
        Vec::<usize>::new()
    );
    assert_eq!(closing(Scope::ToLeft, TABS, 99, PINNED), vec![1, 2]);
}

#[test]
fn more_pinned_tabs_than_there_are_closes_nothing() {
    assert_eq!(closing(Scope::All, 2, 0, 9), Vec::<usize>::new());
}
