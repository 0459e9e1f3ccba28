use lave_core::ordered::TextMap;
use lave_core::settings::{
    ColumnWidths, DEFAULT_SIDEBAR_WIDTH, MAX_COLUMN_WIDTH, MAX_SIDEBAR_WIDTH, MIN_COLUMN_WIDTH,
    MIN_SIDEBAR_WIDTH, Settings,
};

/// The widths of a table's columns.
fn columns<const N: usize>(entries: [(String, i32); N]) -> TextMap<i32> {
    let mut widths = TextMap::new();
    for (column, width) in entries {
        widths.insert(column, width);
    }
    widths
}

/// The widths of some tables' columns.
fn tables<const N: usize>(entries: [(String, TextMap<i32>); N]) -> ColumnWidths {
    let mut widths = ColumnWidths::new();
    for (table, columns) in entries {
        widths.insert(table, columns);
    }
    widths
}

#[test]
fn the_defaults_show_everything_at_a_readable_width() {
    let settings = Settings::default();

    assert_eq!(settings.sidebar_width, DEFAULT_SIDEBAR_WIDTH);
    assert!(settings.show_stopped_containers);
    assert!(settings.column_widths.is_empty());
}

#[test]
fn an_unreasonable_stored_width_is_brought_back_into_range() {
    let clamp = |width: i32| {
        Settings {
            sidebar_width: width,
            ..Settings::default()
        }
        .clamped()
        .sidebar_width
    };

    assert_eq!(clamp(5), MIN_SIDEBAR_WIDTH);
    assert_eq!(clamp(99_999), MAX_SIDEBAR_WIDTH);
    assert_eq!(clamp(-1), MIN_SIDEBAR_WIDTH);
    assert_eq!(clamp(420), 420, "a width within range is left alone");
}

#[test]
fn a_column_width_is_stored_against_its_table_and_read_back() {
    let mut settings = Settings::default();

    assert!(settings.set_column_width("containers", "Image", 240));

    assert_eq!(settings.column_width("containers", "Image"), Some(240));
    assert_eq!(
        settings.column_width("images", "Image"),
        None,
        "a column of the same name in another table is a different column"
    );
    assert_eq!(settings.column_width("containers", "Ports"), None);
}

#[test]
fn storing_the_width_a_column_already_has_reports_no_change() {
    // Restoring a width makes GTK notify, which would otherwise write the store back
    // on every render.
    let mut settings = Settings::default();
    assert!(settings.set_column_width("containers", "Image", 240));

    assert!(!settings.set_column_width("containers", "Image", 240));
    assert!(settings.set_column_width("containers", "Image", 241));
}

#[test]
fn a_negative_width_means_size_it_yourself_and_forgets_any_stored_one() {
    let mut settings = Settings::default();
    settings.set_column_width("containers", "Image", 240);

    assert!(settings.set_column_width("containers", "Image", -1));
    assert_eq!(settings.column_width("containers", "Image"), None);
    assert!(
        !settings.set_column_width("containers", "Image", -1),
        "forgetting what was already forgotten changes nothing"
    );
}

#[test]
fn an_absurd_column_width_is_brought_into_range_on_the_way_in() {
    let mut settings = Settings::default();

    settings.set_column_width("containers", "Image", 1);
    settings.set_column_width("containers", "Ports", 99_999);

    assert_eq!(
        settings.column_width("containers", "Image"),
        Some(MIN_COLUMN_WIDTH)
    );
    assert_eq!(
        settings.column_width("containers", "Ports"),
        Some(MAX_COLUMN_WIDTH)
    );
}

#[test]
fn a_stored_width_from_elsewhere_is_brought_into_range_on_the_way_out() {
    // Nothing stops the store being edited by hand, or by an older version.
    let settings = Settings {
        column_widths: tables([(
            "containers".to_owned(),
            columns([("Image".to_owned(), 99_999), ("Ports".to_owned(), 0)]),
        )]),
        ..Settings::default()
    }
    .clamped();

    assert_eq!(
        settings.column_width("containers", "Image"),
        Some(MAX_COLUMN_WIDTH)
    );
    assert_eq!(
        settings.column_width("containers", "Ports"),
        Some(MIN_COLUMN_WIDTH)
    );
}

#[test]
fn a_width_for_a_table_that_no_longer_exists_is_kept_rather_than_discarded() {
    // Whether a table is still rendered is decided where it is rendered; storage
    // keeps whatever it was given, so a downgrade does not lose the user's drags.
    let settings = Settings {
        column_widths: tables([(
            "volumes".to_owned(),
            columns([("Name".to_owned(), 200)]),
        )]),
        ..Settings::default()
    }
    .clamped();

    assert_eq!(settings.column_width("volumes", "Name"), Some(200));
}
