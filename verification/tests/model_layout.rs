use lave_core::model::layout::{
    GUTTER, MAX_COLUMNS, MIN_COLUMN_WIDTH, Placement, column_count, column_width, columns_for,
    place,
};

#[test]
fn a_narrow_pane_folds_to_one_column() {
    assert_eq!(column_count(0), 1);
    assert_eq!(column_count(MIN_COLUMN_WIDTH), 1);
    assert_eq!(column_count(2 * MIN_COLUMN_WIDTH + GUTTER - 1), 1);
}

#[test]
fn a_pane_wide_enough_for_two_columns_gets_two() {
    assert_eq!(column_count(2 * MIN_COLUMN_WIDTH + GUTTER), 2);
    assert_eq!(column_count(4000), MAX_COLUMNS);
}

#[test]
fn a_lone_group_takes_the_whole_width() {
    // The Containers and Images pages show one group. Half a wide pane of summary
    // beside an empty half is worse than a summary the width of the table above it.
    assert_eq!(columns_for(4000, 1), 1);
    assert_eq!(column_width(4000, columns_for(4000, 1)), 4000);
}

#[test]
fn several_groups_use_as_many_columns_as_fit() {
    assert_eq!(columns_for(4000, 2), 2);
    assert_eq!(columns_for(4000, 7), MAX_COLUMNS);
    assert_eq!(columns_for(500, 7), 1, "a narrow pane still folds");
}

#[test]
fn nothing_to_show_still_reports_a_column() {
    assert_eq!(columns_for(4000, 0), 1);
}

#[test]
fn columns_divide_the_width_with_the_gutters_taken_out_first() {
    assert_eq!(column_width(1000, 1), 1000);
    assert_eq!(column_width(1018, 2), 500);
}

#[test]
fn a_column_never_measures_zero_however_little_there_is_to_share() {
    assert_eq!(column_width(0, 2), 1);
    assert_eq!(column_width(-50, 2), 1);
    assert_eq!(column_width(100, 0), 100);
}

#[test]
fn groups_stack_under_one_another_within_a_column() {
    let (placed, height) = place(&[100, 200], 1);

    assert_eq!(placed[0], Placement { column: 0, top: 0 });
    assert_eq!(
        placed[1],
        Placement {
            column: 0,
            top: 100 + GUTTER
        }
    );
    assert_eq!(height, 100 + GUTTER + 200);
}

#[test]
fn a_long_group_does_not_strand_the_short_one_beside_it() {
    // This is the whole point: with a flow box the 40-tall group would be given the
    // 400-tall group's height, and the two after it would start below both.
    let (placed, height) = place(&[400, 40, 40, 40], 2);

    assert_eq!(placed[0].column, 0);
    assert_eq!(placed[1], Placement { column: 1, top: 0 });
    // The short column keeps taking work until it catches up.
    assert_eq!(placed[2].column, 1);
    assert_eq!(placed[3].column, 1);
    assert_eq!(height, 400);
}

#[test]
fn equal_groups_read_left_to_right() {
    let (placed, _) = place(&[100, 100, 100, 100], 2);

    assert_eq!(placed[0].column, 0);
    assert_eq!(placed[1].column, 1);
    assert_eq!(placed[2].column, 0);
    assert_eq!(placed[3].column, 1);
}

#[test]
fn nothing_to_place_needs_no_height() {
    let (placed, height) = place(&[], 2);

    assert!(placed.is_empty());
    assert_eq!(height, 0);
}

#[test]
fn one_group_is_as_tall_as_itself_and_no_taller() {
    let (_, height) = place(&[137], 2);

    assert_eq!(height, 137);
}

#[test]
fn asking_for_no_columns_still_places_everything() {
    let (placed, height) = place(&[10, 20], 0);

    assert_eq!(placed.len(), 2);
    assert!(placed.iter().all(|placement| placement.column == 0));
    assert_eq!(height, 10 + GUTTER + 20);
}

#[test]
fn a_group_that_measures_negative_is_treated_as_empty() {
    let (placed, height) = place(&[-5, 20], 1);

    assert_eq!(placed[1].top, GUTTER);
    assert_eq!(height, GUTTER + 20);
}
