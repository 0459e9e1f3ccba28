//! What is remembered between runs.

use vstd::prelude::*;

use crate::ordered;
use crate::ordered::TextMap;
use crate::text;

verus! {

/// Wide enough for a tag like `mcr.microsoft.com/playwright:v1.49.0-noble`.
pub const DEFAULT_SIDEBAR_WIDTH: i32 = 300;

/// Narrow enough to be a deliberate choice, not an accidental collapse.
pub const MIN_SIDEBAR_WIDTH: i32 = 180;

pub const MAX_SIDEBAR_WIDTH: i32 = 900;

/// Narrow enough to hide a column's contents, wide enough to still be grabbable.
pub const MIN_COLUMN_WIDTH: i32 = 32;

/// Beyond this the column is wider than any window it could be dragged in.
pub const MAX_COLUMN_WIDTH: i32 = 2000;

/// Widths the user dragged columns to, by table and then by column title.
pub type ColumnWidths = TextMap<TextMap<i32>>;

/// What is remembered between runs.
#[derive(Debug, Clone, PartialEq, Eq)]
pub struct Settings {
    pub sidebar_width: i32,
    /// Whether the container tables include the ones that are not running. One answer for
    /// both pages that list containers, since it is one question.
    pub show_stopped_containers: bool,
    /// Whether the image table includes the ones carrying no tag.
    pub show_untagged_images: bool,
    /// Column widths, keyed by table id and column title. A table or column that no
    /// longer exists is ignored at render time rather than dropped here, so renaming a
    /// column cannot make a stored value invalid.
    ///
    /// Sort order is deliberately absent: it lasts for the session only.
    pub column_widths: ColumnWidths,
}

/// The value of the column widths.
pub type Widths = Seq<(Seq<char>, Seq<(Seq<char>, i32)>)>;

/// The value of some [`Settings`].
#[verifier::ext_equal]
pub struct SettingsView {
    pub sidebar_width: i32,
    pub show_stopped_containers: bool,
    pub show_untagged_images: bool,
    pub column_widths: Widths,
}

impl DeepView for Settings {
    type V = SettingsView;

    open spec fn deep_view(&self) -> SettingsView {
        SettingsView {
            sidebar_width: self.sidebar_width,
            show_stopped_containers: self.show_stopped_containers,
            show_untagged_images: self.show_untagged_images,
            column_widths: self.column_widths.deep_view(),
        }
    }
}

/// `value`, or the bound that it exceeds.
pub open spec fn clamp_to(value: i32, low: i32, high: i32) -> i32 {
    if value < low {
        low
    } else if value > high {
        high
    } else {
        value
    }
}

/// A column width brought into its range.
pub open spec fn column_clamped(width: i32) -> i32 {
    clamp_to(width, MIN_COLUMN_WIDTH, MAX_COLUMN_WIDTH)
}

/// Settings brought into their ranges.
pub open spec fn settings_clamped(settings: SettingsView) -> SettingsView {
    SettingsView {
        sidebar_width: clamp_to(settings.sidebar_width, MIN_SIDEBAR_WIDTH, MAX_SIDEBAR_WIDTH),
        column_widths: ordered::mapped(
            settings.column_widths,
            |columns: Seq<(Seq<char>, i32)>| ordered::mapped(columns, |width: i32| column_clamped(width)),
        ),
        ..settings
    }
}

/// The width that is stored for a column.
pub open spec fn stored(widths: Widths, table: Seq<char>, column: Seq<char>) -> Option<i32> {
    match ordered::lookup(widths, table) {
        Some(columns) => ordered::lookup(columns, column),
        None => None,
    }
}

/// The widths of a table's columns; none when the table has none.
pub open spec fn columns_of(widths: Widths, table: Seq<char>) -> Seq<(Seq<char>, i32)> {
    match ordered::lookup(widths, table) {
        Some(columns) => columns,
        None => Seq::empty(),
    }
}

/// The widths once a column is given a width; a negative one forgets it.
pub open spec fn with_width(
    widths: Widths,
    table: Seq<char>,
    column: Seq<char>,
    width: i32,
) -> Widths {
    if width < 0 {
        if stored(widths, table, column) is Some {
            ordered::inserted(widths, table, ordered::removed(columns_of(widths, table), column))
        } else {
            widths
        }
    } else if stored(widths, table, column) == Some(column_clamped(width)) {
        widths
    } else {
        ordered::inserted(widths, table, ordered::inserted(columns_of(widths, table), column, column_clamped(width)))
    }
}

/// Whether giving a column this width changes anything.
pub open spec fn width_changes(
    widths: Widths,
    table: Seq<char>,
    column: Seq<char>,
    width: i32,
) -> bool {
    if width < 0 {
        stored(widths, table, column) is Some
    } else {
        stored(widths, table, column) != Some(column_clamped(width))
    }
}

fn clamp_column(width: i32) -> (clamped: i32)
    ensures
        clamped == column_clamped(width),
{
    if width < MIN_COLUMN_WIDTH {
        MIN_COLUMN_WIDTH
    } else if width > MAX_COLUMN_WIDTH {
        MAX_COLUMN_WIDTH
    } else {
        width
    }
}

fn clamp_columns(columns: &TextMap<i32>) -> (clamped: TextMap<i32>)
    ensures
        clamped.deep_view() == ordered::mapped(columns.deep_view(), |width: i32| column_clamped(width)),
{
    let ghost goal = ordered::mapped(columns.deep_view(), |width: i32| column_clamped(width));
    let mut clamped: TextMap<i32> = TextMap::new();
    let mut i: usize = 0;
    while i < columns.len()
        invariant
            i <= columns@.len(),
            goal == ordered::mapped(columns.deep_view(), |width: i32| column_clamped(width)),
            clamped.deep_view() == goal.take(i as int),
        decreases columns@.len() - i,
    {
        let len: usize = columns.len();
        proof {
            if i > 0 {
                assert(text::below(columns.deep_view()[i - 1].0, columns.deep_view()[i as int].0));
            }
        }
        clamped.push_last(columns.key_at(i).to_owned(), clamp_column(*columns.value_at(i)));
        i += 1;
        assert(clamped.deep_view() =~= goal.take(i as int));
    }
    assert(clamped.deep_view() =~= goal);
    clamped
}

impl Default for Settings {
    fn default() -> (settings: Self)
        ensures
            settings.deep_view() == (SettingsView {
                sidebar_width: DEFAULT_SIDEBAR_WIDTH,
                show_stopped_containers: true,
                show_untagged_images: true,
                column_widths: Seq::empty(),
            }),
    {
        Self {
            sidebar_width: DEFAULT_SIDEBAR_WIDTH,
            show_stopped_containers: true,
            show_untagged_images: true,
            column_widths: TextMap::new(),
        }
    }
}

impl Settings {
    /// Bring every field within its permitted range. Applied on the way in and
    /// on the way out, so neither a hand-edited store nor an odd window state can
    /// wedge the sidebar at an unusable width.
    #[must_use]
    pub fn clamped(self) -> (settings: Self)
        ensures
            settings.deep_view() == settings_clamped(self.deep_view()),
    {
        let ghost f = |columns: Seq<(Seq<char>, i32)>|
            ordered::mapped(columns, |width: i32| column_clamped(width));
        let ghost goal = ordered::mapped(self.column_widths.deep_view(), f);
        let mut widths: ColumnWidths = TextMap::new();
        let len: usize = self.column_widths.len();
        let mut i: usize = 0;
        while i < len
            invariant
                i <= len,
                len == self.column_widths@.len(),
                len == self.column_widths.deep_view().len(),
                ordered::ascending(self.column_widths.deep_view()),
                f == (|columns: Seq<(Seq<char>, i32)>|
                    ordered::mapped(columns, |width: i32| column_clamped(width))),
                goal == ordered::mapped(self.column_widths.deep_view(), f),
                widths.deep_view() == goal.take(i as int),
            decreases len - i,
        {
            proof {
                if i > 0 {
                    assert(text::below(
                        self.column_widths.deep_view()[i - 1].0,
                        self.column_widths.deep_view()[i as int].0,
                    ));
                }
            }
            let columns = clamp_columns(self.column_widths.value_at(i));
            widths.push_last(self.column_widths.key_at(i).to_owned(), columns);
            i += 1;
            assert(widths.deep_view() =~= goal.take(i as int));
        }
        assert(widths.deep_view() =~= goal);
        Self {
            sidebar_width: if self.sidebar_width < MIN_SIDEBAR_WIDTH {
                MIN_SIDEBAR_WIDTH
            } else if self.sidebar_width > MAX_SIDEBAR_WIDTH {
                MAX_SIDEBAR_WIDTH
            } else {
                self.sidebar_width
            },
            show_stopped_containers: self.show_stopped_containers,
            show_untagged_images: self.show_untagged_images,
            column_widths: widths,
        }
    }

    /// The width to open a column at, or `None` for whatever the view works out
    /// itself.
    #[must_use]
    pub fn column_width(&self, table: &str, column: &str) -> (width: Option<i32>)
        ensures
            width == stored(self.deep_view().column_widths, table@, column@),
    {
        match self.column_widths.get(table) {
            Some(columns) => match columns.get(column) {
                Some(width) => Some(*width),
                None => None,
            },
            None => None,
        }
    }

    /// Remember a column's width. Returns whether anything actually changed, so
    /// a caller can skip writing the store when a restored width is merely being
    /// echoed back.
    ///
    /// A negative width is the toolkit saying "size this yourself", which is the
    /// absence of a stored width rather than a width of its own.
    pub fn set_column_width(&mut self, table: &str, column: &str, width: i32) -> (changed: bool)
        ensures
            final(self).deep_view() == (SettingsView {
                column_widths: with_width(
                    old(self).deep_view().column_widths,
                    table@,
                    column@,
                    width,
                ),
                ..old(self).deep_view()
            }),
            changed == width_changes(
                old(self).deep_view().column_widths,
                table@,
                column@,
                width,
            ),
    {
        let before = self.column_width(table, column);
        let mut columns: TextMap<i32> = TextMap::new();
        if let Some(found) = self.column_widths.get(table) {
            columns = found.clone();
            assert(columns.deep_view() =~= found.deep_view());
        }
        if width < 0 {
            if before.is_none() {
                return false;
            }
            let _ = columns.remove(column);
            self.column_widths.insert(table.to_owned(), columns);
            return true;
        }
        let width = clamp_column(width);
        if let Some(current) = before {
            if current == width {
                return false;
            }
        }
        columns.insert(column.to_owned(), width);
        self.column_widths.insert(table.to_owned(), columns);
        true
    }
}

/// Clamped settings are within their ranges.
pub proof fn law_clamped_is_in_range(settings: SettingsView, table: Seq<char>, column: Seq<char>)
    ensures
        MIN_SIDEBAR_WIDTH <= settings_clamped(settings).sidebar_width <= MAX_SIDEBAR_WIDTH,
        stored(settings_clamped(settings).column_widths, table, column) == (match stored(
            settings.column_widths,
            table,
            column,
        ) {
            Some(width) => Some(column_clamped(width)),
            None => None,
        }),
        stored(settings_clamped(settings).column_widths, table, column) matches Some(width)
            ==> MIN_COLUMN_WIDTH <= width <= MAX_COLUMN_WIDTH,
{
    let g = |width: i32| column_clamped(width);
    let f = |columns: Seq<(Seq<char>, i32)>| ordered::mapped(columns, |width: i32| column_clamped(width));
    ordered::lemma_mapped_holds(settings.column_widths, f, table);
    if let Some(columns) = ordered::lookup(settings.column_widths, table) {
        ordered::lemma_mapped_holds(columns, g, column);
    }
}

/// Clamping twice is clamping once.
pub proof fn law_clamping_is_idempotent(settings: SettingsView)
    ensures
        settings_clamped(settings_clamped(settings)) == settings_clamped(settings),
{
    let once = settings_clamped(settings);
    let twice = settings_clamped(once);
    assert(once.column_widths.len() == settings.column_widths.len());
    assert forall|i: int| 0 <= i < once.column_widths.len() implies twice.column_widths[i]
        == once.column_widths[i] by {
        assert(twice.column_widths[i].1 =~= once.column_widths[i].1);
    }
    assert(twice.column_widths =~= once.column_widths);
}

/// The columns of every table are in the order of their titles, and so are the
/// tables.
pub open spec fn widths_ordered(widths: Widths) -> bool {
    &&& ordered::ascending(widths)
    &&& forall|i: int| 0 <= i < widths.len() ==> ordered::ascending(#[trigger] widths[i].1)
}

/// A width that is stored is read back, clamped; a negative one is read back as
/// none; every other column keeps the width it had.
pub proof fn law_width_is_read_back(
    widths: Widths,
    table: Seq<char>,
    column: Seq<char>,
    width: i32,
    other_table: Seq<char>,
    other_column: Seq<char>,
)
    requires
        widths_ordered(widths),
    ensures
        stored(with_width(widths, table, column, width), table, column) == (if width < 0 {
            None
        } else {
            Some(column_clamped(width))
        }),
        (other_table, other_column) != (table, column) ==> stored(
            with_width(widths, table, column, width),
            other_table,
            other_column,
        ) == stored(widths, other_table, other_column),
        width_changes(widths, table, column, width) <==> stored(widths, table, column) != stored(
            with_width(widths, table, column, width),
            table,
            column,
        ),
{
    let columns = columns_of(widths, table);
    assert(ordered::ascending(columns)) by {
        if ordered::holds(widths, table) {
            assert(ordered::ascending(
                widths[crate::ordered::rank(widths, table) as int].1,
            ));
        }
    }
    ordered::law_remove_then_lookup(columns, column, other_column);
    ordered::law_insert_then_lookup(columns, column, column_clamped(width), other_column);
    ordered::law_insert_then_lookup(widths, table, ordered::removed(columns, column), other_table);
    ordered::law_insert_then_lookup(
        widths,
        table,
        ordered::inserted(columns, column, column_clamped(width)),
        other_table,
    );
    if ordered::lookup(widths, table) is None {
        assert(ordered::lookup(Seq::<(Seq<char>, i32)>::empty(), other_column) is None);
    }
}

/// Clamping leaves what is within its range as it is, brings what is not to the nearer bound,
/// and touches nothing else.
pub proof fn law_clamping_goes_to_the_nearer_bound(settings: SettingsView, width: i32)
    ensures
        ({
            let clamped = settings_clamped(settings);
            &&& 180 <= settings.sidebar_width <= 900 ==> clamped.sidebar_width
                == settings.sidebar_width
            &&& settings.sidebar_width < 180 ==> clamped.sidebar_width == 180
            &&& settings.sidebar_width > 900 ==> clamped.sidebar_width == 900
            &&& clamped.show_stopped_containers == settings.show_stopped_containers
            &&& clamped.show_untagged_images == settings.show_untagged_images
        }),
        32 <= width <= 2000 ==> column_clamped(width) == width,
        width < 32 ==> column_clamped(width) == 32,
        width > 2000 ==> column_clamped(width) == 2000,
{
}

} // verus!
