//! The listings, as tables that the window can sort and filter.

use vstd::prelude::*;

use crate::arrange;
use crate::engine;
use crate::engine::{ContainerSummary, ContainerView, ImageSummary, ImageView, PortView};
use crate::lists;
use crate::lists::{put, slice_of};
use crate::model::format::{
    age, bytes, container_label, image_label, is_untagged, list_or_none, port, short_id,
    text_or_unknown,
};
use crate::model::relations;
use crate::model::relations::containers_of;
use crate::model::tree;
use crate::model::tree::{
    sorted_containers, sorted_images, state_icon, state_tone, NodeId, NodeKey, Tone, ICON_IMAGE,
};
use crate::text;
use crate::text::{count_text, same, to_lowercase};

verus! {

/// What a cell sorts by, which is rarely the text it shows.
#[derive(Debug, Clone, PartialEq, Eq)]
pub enum Sort {
    Text(String),
    Number(i64),
}

/// The value of a [`Sort`].
#[verifier::ext_equal]
pub enum SortView {
    Text(Seq<char>),
    Number(i64),
}

impl DeepView for Sort {
    type V = SortView;

    open spec fn deep_view(&self) -> SortView {
        match self {
            Sort::Text(text) => SortView::Text(text@),
            Sort::Number(number) => SortView::Number(*number),
        }
    }
}

/// One cell of a table.
#[derive(Debug, Clone, PartialEq, Eq)]
pub struct Cell {
    pub text: String,
    pub sort: Sort,
}

/// The value of a [`Cell`].
#[verifier::ext_equal]
pub struct CellView {
    pub text: Seq<char>,
    pub sort: SortView,
}

impl DeepView for Cell {
    type V = CellView;

    open spec fn deep_view(&self) -> CellView {
        CellView { text: self.text@, sort: self.sort.deep_view() }
    }
}

/// A cell that sorts by its text, without regard to case.
pub open spec fn text_cell(value: Seq<char>) -> CellView {
    CellView { text: value, sort: SortView::Text(text::lowercase(value)) }
}

/// A cell that sorts by a number.
pub open spec fn number_cell(text: Seq<char>, value: i64) -> CellView {
    CellView { text, sort: SortView::Number(value) }
}

impl Cell {
    fn text(value: String) -> (cell: Self)
        ensures
            cell.deep_view() == text_cell(value@),
    {
        let sort = Sort::Text(to_lowercase(value.as_str()));
        Self { text: value, sort }
    }

    fn number(text: String, value: i64) -> (cell: Self)
        ensures
            cell.deep_view() == number_cell(text@, value),
    {
        Self { text, sort: Sort::Number(value) }
    }
}

/// One column of a table.
#[derive(Debug, Clone, PartialEq, Eq)]
pub struct Column {
    pub title: String,
    /// Right-aligned, as numbers should be.
    pub numeric: bool,
    /// Takes the slack when the window is wider than the columns need.
    pub expand: bool,
}

/// The value of a [`Column`].
#[verifier::ext_equal]
pub struct ColumnView {
    pub title: Seq<char>,
    pub numeric: bool,
    pub expand: bool,
}

impl DeepView for Column {
    type V = ColumnView;

    open spec fn deep_view(&self) -> ColumnView {
        ColumnView { title: self.title@, numeric: self.numeric, expand: self.expand }
    }
}

/// One row of a table.
#[derive(Debug, Clone, PartialEq, Eq)]
pub struct Row {
    /// What selecting this row should show.
    pub key: NodeId,
    /// Icon and tone for the first cell, matching the sidebar.
    pub icon: &'static str,
    pub tone: Tone,
    pub cells: Vec<Cell>,
}

/// The value of a [`Row`].
#[verifier::ext_equal]
pub struct RowView {
    pub key: NodeKey,
    pub icon: Seq<char>,
    pub tone: Tone,
    pub cells: Seq<CellView>,
}

impl DeepView for Row {
    type V = RowView;

    open spec fn deep_view(&self) -> RowView {
        RowView {
            key: self.key.deep_view(),
            icon: self.icon@,
            tone: self.tone,
            cells: self.cells.deep_view(),
        }
    }
}

/// How a table opens, before the user sorts it themselves.
///
/// A user's own sort lasts for the session and no longer: it is not written to the
/// settings store, so every launch starts from this.
#[derive(Debug, Clone, Copy, PartialEq, Eq)]
pub struct SortSpec {
    pub column: &'static str,
    pub descending: bool,
}

/// The value of a [`SortSpec`].
#[verifier::ext_equal]
pub struct SortSpecView {
    pub column: Seq<char>,
    pub descending: bool,
}

impl DeepView for SortSpec {
    type V = SortSpecView;

    open spec fn deep_view(&self) -> SortSpecView {
        SortSpecView { column: self.column@, descending: self.descending }
    }
}

/// Identifies a table across renders, so column widths can be stored against it.
/// Stable strings, not positions: a table that moves keeps its widths.
pub const IMAGES: &'static str = "images";

pub const CONTAINERS: &'static str = "containers";

pub const PROCESS_LIST: &'static str = "process-list";

/// A listing.
#[derive(Debug, Clone, PartialEq, Eq)]
pub struct Table {
    /// Stable identity, for storing column widths against.
    pub id: &'static str,
    pub columns: Vec<Column>,
    pub rows: Vec<Row>,
    /// The order it opens in. A column that is not in this table is ignored, leaving the
    /// rows in the order they were built.
    pub default_sort: Option<SortSpec>,
}

/// The value of a [`Table`].
#[verifier::ext_equal]
pub struct TableView {
    pub id: Seq<char>,
    pub columns: Seq<ColumnView>,
    pub rows: Seq<RowView>,
    pub default_sort: Option<SortSpecView>,
}

impl DeepView for Table {
    type V = TableView;

    open spec fn deep_view(&self) -> TableView {
        TableView {
            id: self.id@,
            columns: self.columns.deep_view(),
            rows: self.rows.deep_view(),
            default_sort: self.default_sort.deep_view(),
        }
    }
}

/// The first column with a title: the number of columns when there is none.
pub open spec fn column_index(columns: Seq<ColumnView>, title: Seq<char>) -> nat
    decreases columns.len(),
{
    if columns.len() == 0 || columns[0].title == title {
        0
    } else {
        1 + column_index(columns.skip(1), title)
    }
}

/// What a row shows under a title.
pub open spec fn cell_text(table: TableView, row: int, title: Seq<char>) -> Option<Seq<char>> {
    let index = column_index(table.columns, title) as int;
    if index < table.columns.len() && row < table.rows.len() && index
        < table.rows[row].cells.len() {
        Some(table.rows[row].cells[index].text)
    } else {
        None
    }
}

impl Table {
    /// A row's cell by column title. Convenience for callers and tests.
    #[must_use]
    pub fn cell(&self, row: usize, column: &str) -> (text: Option<&str>)
        ensures
            text.deep_view() == cell_text(self.deep_view(), row as int, column@),
    {
        let ghost columns = self.columns.deep_view();
        let mut index: usize = 0;
        assert(columns.skip(0) =~= columns);
        while index < self.columns.len() && !same(self.columns[index].title.as_str(), column)
            invariant
                index <= self.columns@.len(),
                columns == self.columns.deep_view(),
                column_index(columns, column@) == index + column_index(
                    columns.skip(index as int),
                    column@,
                ),
            decreases self.columns@.len() - index,
        {
            assert(columns.skip(index as int).skip(1) =~= columns.skip(index + 1));
            index += 1;
        }
        if index < self.columns.len() && row < self.rows.len() && index
            < self.rows[row].cells.len() {
            assert(self.deep_view().rows[row as int] == self.rows@[row as int].deep_view());
            Some(self.rows[row].cells[index].text.as_str())
        } else {
            None
        }
    }

    /// The titles of the columns, from left to right.
    #[must_use]
    pub fn column_titles(&self) -> (titles: Vec<&str>)
        ensures
            titles.deep_view() == self.deep_view().columns.map_values(|c: ColumnView| c.title),
    {
        let ghost goal = self.deep_view().columns.map_values(|c: ColumnView| c.title);
        let mut titles: Vec<&str> = Vec::new();
        let mut i: usize = 0;
        while i < self.columns.len()
            invariant
                i <= self.columns@.len(),
                goal == self.deep_view().columns.map_values(|c: ColumnView| c.title),
                titles.deep_view() == goal.take(i as int),
            decreases self.columns@.len() - i,
        {
            put(&mut titles, self.columns[i].title.as_str());
            i += 1;
            assert(titles.deep_view() =~= goal.take(i as int));
        }
        assert(titles.deep_view() =~= goal);
        titles
    }
}

/// A column that is neither numeric nor wide.
pub open spec fn plain(title: Seq<char>) -> ColumnView {
    ColumnView { title, numeric: false, expand: false }
}

/// A column of numbers.
pub open spec fn numeric(title: Seq<char>) -> ColumnView {
    ColumnView { title, numeric: true, expand: false }
}

/// A column that takes the slack.
pub open spec fn wide(title: Seq<char>) -> ColumnView {
    ColumnView { title, numeric: false, expand: true }
}

/// Newest first, as `docker ps` itself lists them.
pub open spec fn newest() -> SortSpecView {
    SortSpecView { column: "Created"@, descending: true }
}

fn column(title: &str) -> (column: Column)
    ensures
        column.deep_view() == plain(title@),
{
    Column { title: title.to_owned(), numeric: false, expand: false }
}

fn numeric_column(title: &str) -> (column: Column)
    ensures
        column.deep_view() == numeric(title@),
{
    Column { title: title.to_owned(), numeric: true, expand: false }
}

fn wide_column(title: &str) -> (column: Column)
    ensures
        column.deep_view() == wide(title@),
{
    Column { title: title.to_owned(), numeric: false, expand: true }
}

fn newest_first() -> (sort: SortSpec)
    ensures
        sort.deep_view() == newest(),
{
    SortSpec { column: "Created", descending: true }
}

// --------------------------------------------------------------------- images

/// A count as a number that a cell can sort by.
pub open spec fn sortable(count: nat) -> i64 {
    if count > i64::MAX {
        i64::MAX
    } else {
        count as i64
    }
}

/// The row of an image.
pub open spec fn image_row(image: ImageView, containers: Seq<ContainerView>, now: i64) -> RowView {
    let users = relations::users_of(image, containers).len();
    RowView {
        key: NodeKey::Image(image.id),
        icon: ICON_IMAGE@,
        tone: if crate::model::format::untagged(image) {
            Tone::Warn
        } else {
            Tone::Neutral
        },
        cells: seq![
            text_cell(crate::model::format::image_label_text(image)),
            text_cell(crate::model::format::short_text(image.id)),
            number_cell(crate::model::format::bytes_text(image.size as int), image.size),
            number_cell(crate::model::format::age_text(image.created as int, now as int), image.created),
            number_cell(text::decimal(users), sortable(users)),
        ],
    }
}

/// The table of images, with the untagged ones or without them.
pub open spec fn images_table(
    images: Seq<ImageView>,
    containers: Seq<ContainerView>,
    now: i64,
    include_untagged: bool,
) -> TableView {
    TableView {
        id: IMAGES@,
        columns: seq![
            wide("Image"@),
            plain("ID"@),
            numeric("Size"@),
            numeric("Created"@),
            numeric("Containers"@),
        ],
        rows: tree::images_in_order(images).filter(
            |i: ImageView| include_untagged || !crate::model::format::untagged(i),
        ).map_values(|i: ImageView| image_row(i, containers, now)),
        default_sort: Some(newest()),
    }
}

fn image_line(image: &ImageSummary, containers: &[ContainerSummary], now: i64) -> (row: Row)
    ensures
        row.deep_view() == image_row(image.deep_view(), containers.deep_view(), now),
{
    let users: usize = containers_of(image, containers).len();
    let rank: i64 = if users as u64 > i64::MAX as u64 {
        i64::MAX
    } else {
        users as i64
    };
    let mut cells: Vec<Cell> = Vec::new();
    put(&mut cells, Cell::text(image_label(image)));
    put(&mut cells, Cell::text(short_id(image.id.as_str())));
    put(&mut cells, Cell::number(bytes(image.size), image.size));
    put(&mut cells, Cell::number(age(image.created, now), image.created));
    put(&mut cells, Cell::number(count_text(users), rank));
    let row = Row {
        key: NodeId::Image(image.id.clone()),
        icon: ICON_IMAGE,
        tone: if is_untagged(image) {
            Tone::Warn
        } else {
            Tone::Neutral
        },
        cells,
    };
    proof {
        let users = relations::users_of(image.deep_view(), containers.deep_view());
        assert(row.deep_view().cells =~= image_row(
            image.deep_view(),
            containers.deep_view(),
            now,
        ).cells);
    }
    row
}

/// The images on the device, in the same order the sidebar lists them. Those
/// that carry no tag can be left out.
#[must_use]
pub fn images_filtered(
    images: &[ImageSummary],
    containers: &[ContainerSummary],
    now: i64,
    include_untagged: bool,
) -> (table: Table)
    ensures
        table.deep_view() == images_table(
            images.deep_view(),
            containers.deep_view(),
            now,
            include_untagged,
        ),
{
    let sorted = sorted_images(images);
    let ghost all = tree::images_in_order(images.deep_view());
    let ghost users = containers.deep_view();
    let ghost p = |i: ImageView| include_untagged || !crate::model::format::untagged(i);
    let ghost f = |i: ImageView| image_row(i, users, now);
    let mut rows: Vec<Row> = Vec::new();
    let mut i: usize = 0;
    proof {
        lists::lemma_filter_ends(all, p);
        assert(rows.deep_view() =~= all.take(0).filter(p).map_values(f));
    }
    while i < sorted.len()
        invariant
            i <= sorted@.len(),
            sorted.deep_view() == all,
            users == containers.deep_view(),
            p == (|i: ImageView| include_untagged || !crate::model::format::untagged(i)),
            f == (|i: ImageView| image_row(i, users, now)),
            rows.deep_view() == all.take(i as int).filter(p).map_values(f),
        decreases sorted@.len() - i,
    {
        let image = sorted[i];
        let ghost kept = all.take(i as int).filter(p);
        proof {
            lists::lemma_filter_step(all, p, i as int);
            assert(all[i as int] == image.deep_view());
            assert(kept.push(all[i as int]).map_values(f) =~= kept.map_values(f).push(
                f(all[i as int]),
            ));
        }
        if include_untagged || !is_untagged(image) {
            put(&mut rows, image_line(image, containers, now));
        }
        i += 1;
    }
    proof {
        lists::lemma_filter_ends(all, p);
    }
    let mut columns: Vec<Column> = Vec::new();
    put(&mut columns, wide_column("Image"));
    put(&mut columns, column("ID"));
    put(&mut columns, numeric_column("Size"));
    put(&mut columns, numeric_column("Created"));
    put(&mut columns, numeric_column("Containers"));
    let table = Table { id: IMAGES, columns, rows, default_sort: Some(newest_first()) };
    proof {
        let want = images_table(images.deep_view(), users, now, include_untagged);
        assert(table.deep_view().columns =~= want.columns);
        assert(table.deep_view().rows == want.rows);
    }
    table
}

/// Every image on the device, in the same order the sidebar lists them.
#[must_use]
pub fn images(listed: &[ImageSummary], containers: &[ContainerSummary], now: i64) -> (table: Table)
    ensures
        table.deep_view() == images_table(listed.deep_view(), containers.deep_view(), now, true),
{
    images_filtered(listed, containers, now, true)
}

// ----------------------------------------------------------------- containers

/// Fewest rows the environment table is given, so a quiet machine still looks like a
/// table rather than a stripe.
pub const MIN_VISIBLE_ROWS: usize = 3;

/// Most rows it will claim unasked. Beyond this the user drags for more, rather than
/// having the daemon metadata pushed off the screen by a busy host.
pub const MAX_VISIBLE_ROWS: usize = 20;

/// How many rows to show for so many running containers.
pub open spec fn rows_for(running: nat) -> nat {
    if running < 3 {
        3
    } else if running > 20 {
        20
    } else {
        running
    }
}

/// How many rows the environment table should show without being dragged.
///
/// Sized to the *running* containers: those are what the panel is for, and the stopped
/// ones are revealed by dragging the divider below it.
#[must_use]
pub fn visible_rows(running: usize) -> (rows: usize)
    ensures
        rows == rows_for(running as nat),
        MIN_VISIBLE_ROWS <= rows <= MAX_VISIBLE_ROWS,
{
    if running < MIN_VISIBLE_ROWS {
        MIN_VISIBLE_ROWS
    } else if running > MAX_VISIBLE_ROWS {
        MAX_VISIBLE_ROWS
    } else {
        running
    }
}

/// What a container says it was made from.
pub open spec fn image_text(container: ContainerView) -> Seq<char> {
    if container.image.len() == 0 {
        crate::model::format::short_text(container.image_id)
    } else {
        container.image
    }
}

/// The ports of a container in words.
pub open spec fn ports_text(ports: Seq<PortView>) -> Seq<char> {
    crate::model::format::list_text(ports.map_values(|p: PortView| crate::model::format::port_text(p)))
}

fn image_shown(container: &ContainerSummary) -> (text: String)
    ensures
        text@ == image_text(container.deep_view()),
{
    if container.image.as_str().is_empty() {
        short_id(container.image_id.as_str())
    } else {
        container.image.clone()
    }
}

/// The ports of a container in one line.
pub(crate) fn ports_shown(container: &ContainerSummary) -> (text: String)
    ensures
        text@ == ports_text(container.deep_view().ports),
{
    let ghost goal = container.ports.deep_view().map_values(|p: PortView| crate::model::format::port_text(p));
    let mut ports: Vec<String> = Vec::new();
    let mut i: usize = 0;
    while i < container.ports.len()
        invariant
            i <= container.ports@.len(),
            goal == container.ports.deep_view().map_values(|p: PortView| crate::model::format::port_text(p)),
            ports.deep_view() == goal.take(i as int),
        decreases container.ports@.len() - i,
    {
        put(&mut ports, port(&container.ports[i]));
        i += 1;
        assert(ports.deep_view() =~= goal.take(i as int));
    }
    assert(ports.deep_view() =~= goal);
    list_or_none(slice_of(&ports))
}

/// The row of a container in the process list.
pub open spec fn process_row(container: ContainerView, now: i64) -> RowView {
    RowView {
        key: NodeKey::Container(container.id),
        icon: tree::icon_of(container.state),
        tone: tree::tone_of(container.state),
        cells: seq![
            text_cell(crate::model::format::short_text(container.id)),
            text_cell(image_text(container)),
            text_cell(crate::model::format::known_text(container.command)),
            number_cell(crate::model::format::age_text(container.created as int, now as int), container.created),
            text_cell(crate::model::format::known_text(container.status)),
            text_cell(ports_text(container.ports)),
            text_cell(crate::model::format::container_label_text(container)),
        ],
    }
}

/// The process list, with the stopped containers or without them.
pub open spec fn process_table(
    containers: Seq<ContainerView>,
    now: i64,
    include_stopped: bool,
) -> TableView {
    TableView {
        id: PROCESS_LIST@,
        columns: seq![
            plain("Container ID"@),
            wide("Image"@),
            wide("Command"@),
            numeric("Created"@),
            plain("Status"@),
            plain("Ports"@),
            wide("Names"@),
        ],
        rows: tree::containers_in_order(containers).filter(
            |c: ContainerView| include_stopped || engine::active(c.state),
        ).map_values(|c: ContainerView| process_row(c, now)),
        default_sort: Some(newest()),
    }
}

fn process_line(container: &ContainerSummary, now: i64) -> (row: Row)
    ensures
        row.deep_view() == process_row(container.deep_view(), now),
{
    let mut cells: Vec<Cell> = Vec::new();
    put(&mut cells, Cell::text(short_id(container.id.as_str())));
    put(&mut cells, Cell::text(image_shown(container)));
    put(&mut cells, Cell::text(text_or_unknown(container.command.as_str())));
    put(&mut cells, Cell::number(age(container.created, now), container.created));
    put(&mut cells, Cell::text(text_or_unknown(container.status.as_str())));
    put(&mut cells, Cell::text(ports_shown(container)));
    put(&mut cells, Cell::text(container_label(container)));
    let row = Row {
        key: NodeId::Container(container.id.clone()),
        icon: state_icon(&container.state),
        tone: state_tone(&container.state),
        cells,
    };
    assert(row.deep_view().cells =~= process_row(container.deep_view(), now).cells);
    row
}

/// The container table shown on the environment page, with the columns `docker ps`
/// itself reports.
///
/// `include_stopped` corresponds to `docker ps -a`: without it, only containers that
/// are actually executing are listed, which is what plain `docker ps` shows.
#[must_use]
pub fn process_list(containers: &[ContainerSummary], now: i64, include_stopped: bool) -> (table:
    Table)
    ensures
        table.deep_view() == process_table(containers.deep_view(), now, include_stopped),
{
    let sorted = sorted_containers(containers);
    let ghost all = tree::containers_in_order(containers.deep_view());
    let ghost p = |c: ContainerView| include_stopped || engine::active(c.state);
    let ghost f = |c: ContainerView| process_row(c, now);
    let mut rows: Vec<Row> = Vec::new();
    let mut i: usize = 0;
    proof {
        lists::lemma_filter_ends(all, p);
        assert(rows.deep_view() =~= all.take(0).filter(p).map_values(f));
    }
    while i < sorted.len()
        invariant
            i <= sorted@.len(),
            sorted.deep_view() == all,
            p == (|c: ContainerView| include_stopped || engine::active(c.state)),
            f == (|c: ContainerView| process_row(c, now)),
            rows.deep_view() == all.take(i as int).filter(p).map_values(f),
        decreases sorted@.len() - i,
    {
        let container = sorted[i];
        let ghost kept = all.take(i as int).filter(p);
        proof {
            lists::lemma_filter_step(all, p, i as int);
            assert(all[i as int] == container.deep_view());
            assert(kept.push(all[i as int]).map_values(f) =~= kept.map_values(f).push(
                f(all[i as int]),
            ));
        }
        if include_stopped || container.state.is_active() {
            put(&mut rows, process_line(container, now));
        }
        i += 1;
    }
    proof {
        lists::lemma_filter_ends(all, p);
    }
    let mut columns: Vec<Column> = Vec::new();
    put(&mut columns, column("Container ID"));
    put(&mut columns, wide_column("Image"));
    put(&mut columns, wide_column("Command"));
    put(&mut columns, numeric_column("Created"));
    put(&mut columns, column("Status"));
    put(&mut columns, column("Ports"));
    put(&mut columns, wide_column("Names"));
    let table = Table { id: PROCESS_LIST, columns, rows, default_sort: Some(newest_first()) };
    proof {
        let want = process_table(containers.deep_view(), now, include_stopped);
        assert(table.deep_view().columns =~= want.columns);
        assert(table.deep_view().rows == want.rows);
    }
    table
}

/// The row of a container.
pub open spec fn container_row(container: ContainerView, now: i64) -> RowView {
    RowView {
        key: NodeKey::Container(container.id),
        icon: tree::icon_of(container.state),
        tone: tree::tone_of(container.state),
        cells: seq![
            text_cell(crate::model::format::container_label_text(container)),
            text_cell(engine::state_label(container.state)),
            text_cell(image_text(container)),
            text_cell(ports_text(container.ports)),
            number_cell(crate::model::format::age_text(container.created as int, now as int), container.created),
        ],
    }
}

/// The table of containers, with the stopped ones or without them.
pub open spec fn containers_table(
    containers: Seq<ContainerView>,
    now: i64,
    include_stopped: bool,
) -> TableView {
    TableView {
        id: CONTAINERS@,
        columns: seq![
            wide("Container"@),
            plain("State"@),
            wide("Image"@),
            plain("Ports"@),
            numeric("Created"@),
        ],
        rows: tree::containers_in_order(containers).filter(
            |c: ContainerView| include_stopped || engine::active(c.state),
        ).map_values(|c: ContainerView| container_row(c, now)),
        default_sort: Some(newest()),
    }
}

fn container_line(container: &ContainerSummary, now: i64) -> (row: Row)
    ensures
        row.deep_view() == container_row(container.deep_view(), now),
{
    let mut cells: Vec<Cell> = Vec::new();
    put(&mut cells, Cell::text(container_label(container)));
    put(&mut cells, Cell::text(container.state.label().to_owned()));
    put(&mut cells, Cell::text(image_shown(container)));
    put(&mut cells, Cell::text(ports_shown(container)));
    put(&mut cells, Cell::number(age(container.created, now), container.created));
    let row = Row {
        key: NodeId::Container(container.id.clone()),
        icon: state_icon(&container.state),
        tone: state_tone(&container.state),
        cells,
    };
    assert(row.deep_view().cells =~= container_row(container.deep_view(), now).cells);
    row
}

/// The containers on the device. Those that are not running can be left out.
#[must_use]
pub fn containers_filtered(
    containers: &[ContainerSummary],
    now: i64,
    include_stopped: bool,
) -> (table: Table)
    ensures
        table.deep_view() == containers_table(containers.deep_view(), now, include_stopped),
{
    let sorted = sorted_containers(containers);
    let ghost all = tree::containers_in_order(containers.deep_view());
    let ghost p = |c: ContainerView| include_stopped || engine::active(c.state);
    let ghost f = |c: ContainerView| container_row(c, now);
    let mut rows: Vec<Row> = Vec::new();
    let mut i: usize = 0;
    proof {
        lists::lemma_filter_ends(all, p);
        assert(rows.deep_view() =~= all.take(0).filter(p).map_values(f));
    }
    while i < sorted.len()
        invariant
            i <= sorted@.len(),
            sorted.deep_view() == all,
            p == (|c: ContainerView| include_stopped || engine::active(c.state)),
            f == (|c: ContainerView| container_row(c, now)),
            rows.deep_view() == all.take(i as int).filter(p).map_values(f),
        decreases sorted@.len() - i,
    {
        let container = sorted[i];
        let ghost kept = all.take(i as int).filter(p);
        proof {
            lists::lemma_filter_step(all, p, i as int);
            assert(all[i as int] == container.deep_view());
            assert(kept.push(all[i as int]).map_values(f) =~= kept.map_values(f).push(
                f(all[i as int]),
            ));
        }
        if include_stopped || container.state.is_active() {
            put(&mut rows, container_line(container, now));
        }
        i += 1;
    }
    proof {
        lists::lemma_filter_ends(all, p);
    }
    let mut columns: Vec<Column> = Vec::new();
    put(&mut columns, wide_column("Container"));
    put(&mut columns, column("State"));
    put(&mut columns, wide_column("Image"));
    put(&mut columns, column("Ports"));
    put(&mut columns, numeric_column("Created"));
    let table = Table { id: CONTAINERS, columns, rows, default_sort: Some(newest_first()) };
    proof {
        let want = containers_table(containers.deep_view(), now, include_stopped);
        assert(table.deep_view().columns =~= want.columns);
        assert(table.deep_view().rows == want.rows);
    }
    table
}

/// Every container on the device, running or not.
#[must_use]
pub fn containers(listed: &[ContainerSummary], now: i64) -> (table: Table)
    ensures
        table.deep_view() == containers_table(listed.deep_view(), now, true),
{
    containers_filtered(listed, now, true)
}

// ------------------------------------------------------------------------ laws

/// Whether every row of a table has a cell for every column.
pub open spec fn is_filled(table: TableView) -> bool {
    forall|i: int|
        0 <= i < table.rows.len() ==> (#[trigger] table.rows[i]).cells.len() == table.columns.len()
}

/// Whether a table opens sorted by one of its own columns, which sorts by number.
pub open spec fn sorts_by_its_own(table: TableView) -> bool {
    table.default_sort matches Some(sort) && sort.descending && exists|i: int|
        0 <= i < table.columns.len() && (#[trigger] table.columns[i]).title == sort.column
            && table.columns[i].numeric
}

/// Every table has a cell for every column of every row, and opens newest first by a
/// column that it has.
pub proof fn law_tables_are_complete(
    images: Seq<ImageView>,
    containers: Seq<ContainerView>,
    now: i64,
    all: bool,
)
    ensures
        is_filled(images_table(images, containers, now, all)),
        is_filled(containers_table(containers, now, all)),
        is_filled(process_table(containers, now, all)),
        sorts_by_its_own(images_table(images, containers, now, all)),
        sorts_by_its_own(containers_table(containers, now, all)),
        sorts_by_its_own(process_table(containers, now, all)),
{
    assert(images_table(images, containers, now, all).columns[3].title == "Created"@);
    assert(containers_table(containers, now, all).columns[4].title == "Created"@);
    assert(process_table(containers, now, all).columns[3].title == "Created"@);
}

/// No two tables share the name that their column widths are stored under.
pub proof fn law_tables_are_told_apart()
    ensures
        IMAGES@ != CONTAINERS@,
        IMAGES@ != PROCESS_LIST@,
        CONTAINERS@ != PROCESS_LIST@,
{
    reveal_strlit("images");
    reveal_strlit("containers");
    reveal_strlit("process-list");
    assert(IMAGES@[0] == 'i' && CONTAINERS@[0] == 'c' && PROCESS_LIST@[0] == 'p');
}

/// What a row leads to.
pub open spec fn keys_of(rows: Seq<RowView>) -> Seq<NodeKey> {
    rows.map_values(|row: RowView| row.key)
}

/// What the children of a node are.
pub open spec fn ids_of(nodes: Seq<tree::NodeView>) -> Seq<NodeKey> {
    nodes.map_values(|node: tree::NodeView| node.id)
}

proof fn lemma_filter_all<T>(items: Seq<T>, p: spec_fn(T) -> bool)
    requires
        forall|i: int| 0 <= i < items.len() ==> p(#[trigger] items[i]),
    ensures
        items.filter(p) == items,
    decreases items.len(),
{
    reveal(Seq::filter);
    if items.len() > 0 {
        let front = items.drop_last();
        assert forall|i: int| 0 <= i < front.len() implies p(#[trigger] front[i]) by {
            assert(front[i] == items[i]);
        }
        lemma_filter_all(front, p);
        assert(p(items[items.len() - 1]));
        assert(front.push(items.last()) =~= items);
    }
}

/// A table that leaves nothing out lists what the sidebar lists, in its order, and each
/// row leads to its entry there.
pub proof fn law_tables_follow_the_sidebar(
    images: Seq<ImageView>,
    containers: Seq<ContainerView>,
    now: i64,
)
    ensures
        keys_of(images_table(images, containers, now, true).rows) == ids_of(
            tree::images_view(images).children,
        ),
        keys_of(containers_table(containers, now, true).rows) == ids_of(
            tree::containers_view(containers).children,
        ),
        keys_of(process_table(containers, now, true).rows) == ids_of(
            tree::containers_view(containers).children,
        ),
{
    let all = true;
    let p = |i: ImageView| all || !crate::model::format::untagged(i);
    let sorted = tree::images_in_order(images);
    lemma_filter_all(sorted, p);
    assert(keys_of(images_table(images, containers, now, true).rows) =~= ids_of(
        tree::images_view(images).children,
    ));
    let q = |c: ContainerView| all || engine::active(c.state);
    let listed = tree::containers_in_order(containers);
    lemma_filter_all(listed, q);
    assert(keys_of(containers_table(containers, now, true).rows) =~= ids_of(
        tree::containers_view(containers).children,
    ));
    assert(keys_of(process_table(containers, now, true).rows) =~= ids_of(
        tree::containers_view(containers).children,
    ));
}

/// The positions of the containers in the order in which the tables list them.
pub open spec fn listing_order(containers: Seq<ContainerView>) -> Seq<int> {
    arrange::arrangement(containers.map_values(|c: ContainerView| tree::container_rank(c)))
}

/// The rows of the process list for the containers at some positions.
pub open spec fn process_rows(
    containers: Seq<ContainerView>,
    now: i64,
    positions: Seq<int>,
) -> Seq<RowView> {
    positions.map_values(|i: int| process_row(containers[i], now))
}

proof fn lemma_filter_of_mapped<A, B>(
    items: Seq<A>,
    f: spec_fn(A) -> B,
    p: spec_fn(A) -> bool,
    q: spec_fn(B) -> bool,
)
    requires
        forall|i: int| 0 <= i < items.len() ==> p(#[trigger] items[i]) == q(f(items[i])),
    ensures
        items.map_values(f).filter(q) == items.filter(p).map_values(f),
    decreases items.len(),
{
    reveal(Seq::filter);
    if items.len() > 0 {
        let front = items.drop_last();
        assert forall|i: int| 0 <= i < front.len() implies p(#[trigger] front[i]) == q(
            f(front[i]),
        ) by {
            assert(front[i] == items[i]);
        }
        lemma_filter_of_mapped(front, f, p, q);
        assert(items.map_values(f).drop_last() =~= front.map_values(f));
        assert(p(items[items.len() - 1]) == q(f(items[items.len() - 1])));
        let kept = front.filter(p);
        assert(kept.push(items.last()).map_values(f) =~= kept.map_values(f).push(f(items.last())));
    } else {
        assert(items.map_values(f).filter(q) =~= items.filter(p).map_values(f));
    }
}

/// With the stopped containers the process list has one row for every container. Without
/// them it has the rows of those that hold a process, in the same order and unchanged
/// otherwise, under the same columns.
pub proof fn law_narrowing_only_leaves_rows_out(containers: Seq<ContainerView>, now: i64)
    ensures
        arrange::is_permutation(listing_order(containers), containers.len()),
        process_table(containers, now, true).rows == process_rows(
            containers,
            now,
            listing_order(containers),
        ),
        process_table(containers, now, false).rows == process_rows(
            containers,
            now,
            listing_order(containers).filter(|i: int| engine::active(containers[i].state)),
        ),
        forall|i: int|
            0 <= i < containers.len() ==> (#[trigger] process_table(containers, now, true).rows[i]).key
                == NodeKey::Container(containers[listing_order(containers)[i]].id),
        process_table(containers, now, false).columns == process_table(
            containers,
            now,
            true,
        ).columns,
        is_filled(process_table(containers, now, true)),
        is_filled(process_table(containers, now, false)),
{
    let ranks = containers.map_values(|c: ContainerView| tree::container_rank(c));
    arrange::law_arrangement_is_stable_sort(ranks);
    let order = listing_order(containers);
    let listed = tree::containers_in_order(containers);
    let at = |i: int| containers[i];
    assert(listed =~= order.map_values(at));
    let row = |c: ContainerView| process_row(c, now);
    let every = true;
    let everything = |c: ContainerView| every || engine::active(c.state);
    lemma_filter_all(listed, everything);
    let full = process_table(containers, now, true).rows;
    assert(full == listed.map_values(row));
    assert(full =~= process_rows(containers, now, order));
    let some = false;
    let running = |c: ContainerView| some || engine::active(c.state);
    let p = |i: int| engine::active(containers[i].state);
    lemma_filter_of_mapped(order, at, p, running);
    let kept = order.filter(p);
    assert(kept.map_values(at).map_values(row) =~= process_rows(containers, now, kept));
    assert(process_table(containers, now, false).rows == listed.filter(running).map_values(row));
}

proof fn lemma_column_is(columns: Seq<ColumnView>, at: int)
    requires
        0 <= at < columns.len(),
        forall|i: int| 0 <= i < at ==> (#[trigger] columns[i]).title != columns[at].title,
    ensures
        column_index(columns, columns[at].title) == at,
    decreases at,
{
    if at > 0 {
        assert(columns[0].title != columns[at].title);
        let rest = columns.skip(1);
        assert forall|i: int| 0 <= i < at - 1 implies (#[trigger] rest[i]).title != rest[at
            - 1].title by {
            assert(rest[i] == columns[i + 1]);
        }
        lemma_column_is(rest, at - 1);
    }
}

/// The cell of a row under a title.
pub open spec fn cell_under(table: TableView, row: int, title: Seq<char>) -> CellView {
    table.rows[row].cells[column_index(table.columns, title) as int]
}

/// A row of the table of images shows one of the images that were listed, leads to it, and
/// has under each title the figure that the title names: sizes and instants sort by their
/// figures, not by their words.
pub proof fn law_image_figures_stand_under_their_titles(
    images: Seq<ImageView>,
    containers: Seq<ContainerView>,
    now: i64,
    all: bool,
    row: int,
) -> (at: int)
    requires
        0 <= row < images_table(images, containers, now, all).rows.len(),
    ensures
        0 <= at < images.len(),
        ({
            let table = images_table(images, containers, now, all);
            let image = images[at];
            let users = relations::users_of(image, containers).len();
            &&& table.rows[row].key == NodeKey::Image(image.id)
            &&& all || !crate::model::format::untagged(image)
            &&& table.rows[row].tone == Tone::Warn <==> crate::model::format::untagged(image)
            &&& cell_text(table, row, "Image"@) == Some(
                crate::model::format::image_label_text(image),
            )
            &&& cell_text(table, row, "ID"@) == Some(crate::model::format::short_text(image.id))
            &&& cell_text(table, row, "Size"@) == Some(
                crate::model::format::bytes_text(image.size as int),
            )
            &&& cell_under(table, row, "Size"@).sort == SortView::Number(image.size)
            &&& cell_text(table, row, "Created"@) == Some(
                crate::model::format::age_text(image.created as int, now as int),
            )
            &&& cell_under(table, row, "Created"@).sort == SortView::Number(image.created)
            &&& cell_text(table, row, "Containers"@) == Some(text::decimal(users))
            &&& users <= i64::MAX ==> (cell_under(table, row, "Containers"@).sort matches SortView::Number(n)
                && n == users)
        }),
{
    let table = images_table(images, containers, now, all);
    reveal_strlit("Image");
    reveal_strlit("ID");
    reveal_strlit("Size");
    reveal_strlit("Created");
    reveal_strlit("Containers");
    assert("Image"@.len() == 5 && "ID"@.len() == 2 && "Size"@.len() == 4 && "Created"@.len() == 7
        && "Containers"@.len() == 10);
    lemma_column_is(table.columns, 0);
    lemma_column_is(table.columns, 1);
    lemma_column_is(table.columns, 2);
    lemma_column_is(table.columns, 3);
    lemma_column_is(table.columns, 4);
    let sorted = tree::images_in_order(images);
    let p = |i: ImageView| all || !crate::model::format::untagged(i);
    let shown = sorted.filter(p);
    lists::lemma_filter_keeps(sorted, p);
    assert(shown.contains(shown[row]));
    arrange::law_sorting_keeps_every_item(
        images,
        images.map_values(|i: ImageView| tree::image_rank(i)),
    );
    assert(sorted.contains(shown[row]));
    assert(images.contains(shown[row]));
    assert(table.rows[row] == image_row(shown[row], containers, now));
    choose|at: int| 0 <= at < images.len() && images[at] == shown[row]
}

/// A row of the process list shows one of the containers that were listed, leads to it, and
/// has under each title what the title names.
pub proof fn law_processes_stand_under_their_titles(
    containers: Seq<ContainerView>,
    now: i64,
    all: bool,
    row: int,
) -> (at: int)
    requires
        0 <= row < process_table(containers, now, all).rows.len(),
    ensures
        0 <= at < containers.len(),
        ({
            let table = process_table(containers, now, all);
            let container = containers[at];
            &&& table.rows[row].key == NodeKey::Container(container.id)
            &&& all || engine::active(container.state)
            &&& table.rows[row].icon == tree::icon_of(container.state)
            &&& table.rows[row].tone == tree::tone_of(container.state)
            &&& cell_text(table, row, "Container ID"@) == Some(
                crate::model::format::short_text(container.id),
            )
            &&& container.image.len() > 0 ==> cell_text(table, row, "Image"@) == Some(
                container.image,
            )
            &&& container.image.len() == 0 ==> cell_text(table, row, "Image"@) == Some(
                crate::model::format::short_text(container.image_id),
            )
            &&& cell_text(table, row, "Command"@) == Some(
                crate::model::format::known_text(container.command),
            )
            &&& cell_text(table, row, "Created"@) == Some(
                crate::model::format::age_text(container.created as int, now as int),
            )
            &&& cell_under(table, row, "Created"@).sort == SortView::Number(container.created)
            &&& cell_text(table, row, "Status"@) == Some(
                crate::model::format::known_text(container.status),
            )
            &&& cell_text(table, row, "Ports"@) == Some(ports_text(container.ports))
            &&& cell_text(table, row, "Names"@) == Some(
                crate::model::format::container_label_text(container),
            )
        }),
{
    let table = process_table(containers, now, all);
    reveal_strlit("Container ID");
    reveal_strlit("Image");
    reveal_strlit("Command");
    reveal_strlit("Created");
    reveal_strlit("Status");
    reveal_strlit("Ports");
    reveal_strlit("Names");
    assert("Container ID"@.len() == 12 && "Image"@.len() == 5 && "Command"@.len() == 7
        && "Created"@.len() == 7 && "Status"@.len() == 6 && "Ports"@.len() == 5 && "Names"@.len()
        == 5);
    assert("Image"@[0] == 'I' && "Ports"@[0] == 'P' && "Names"@[0] == 'N' && "Command"@[1] == 'o'
        && "Created"@[1] == 'r');
    lemma_column_is(table.columns, 0);
    lemma_column_is(table.columns, 1);
    lemma_column_is(table.columns, 2);
    lemma_column_is(table.columns, 3);
    lemma_column_is(table.columns, 4);
    lemma_column_is(table.columns, 5);
    lemma_column_is(table.columns, 6);
    let p = |c: ContainerView| all || engine::active(c.state);
    let at = lemma_listed_container(containers, p, row);
    assert(table.rows[row] == process_row(containers[at], now));
    at
}

/// A row of the table of containers shows one of the containers that were listed, leads to
/// it, and has under each title what the title names.
pub proof fn law_container_figures_stand_under_their_titles(
    containers: Seq<ContainerView>,
    now: i64,
    all: bool,
    row: int,
) -> (at: int)
    requires
        0 <= row < containers_table(containers, now, all).rows.len(),
    ensures
        0 <= at < containers.len(),
        ({
            let table = containers_table(containers, now, all);
            let container = containers[at];
            &&& table.rows[row].key == NodeKey::Container(container.id)
            &&& all || engine::active(container.state)
            &&& table.rows[row].icon == tree::icon_of(container.state)
            &&& table.rows[row].tone == tree::tone_of(container.state)
            &&& cell_text(table, row, "Container"@) == Some(
                crate::model::format::container_label_text(container),
            )
            &&& cell_text(table, row, "State"@) == Some(engine::state_label(container.state))
            &&& container.image.len() > 0 ==> cell_text(table, row, "Image"@) == Some(
                container.image,
            )
            &&& container.image.len() == 0 ==> cell_text(table, row, "Image"@) == Some(
                crate::model::format::short_text(container.image_id),
            )
            &&& cell_text(table, row, "Ports"@) == Some(ports_text(container.ports))
            &&& cell_text(table, row, "Created"@) == Some(
                crate::model::format::age_text(container.created as int, now as int),
            )
            &&& cell_under(table, row, "Created"@).sort == SortView::Number(container.created)
        }),
{
    let table = containers_table(containers, now, all);
    reveal_strlit("Container");
    reveal_strlit("State");
    reveal_strlit("Image");
    reveal_strlit("Ports");
    reveal_strlit("Created");
    assert("Container"@.len() == 9 && "State"@.len() == 5 && "Image"@.len() == 5 && "Ports"@.len()
        == 5 && "Created"@.len() == 7);
    assert("State"@[0] == 'S' && "Image"@[0] == 'I' && "Ports"@[0] == 'P');
    lemma_column_is(table.columns, 0);
    lemma_column_is(table.columns, 1);
    lemma_column_is(table.columns, 2);
    lemma_column_is(table.columns, 3);
    lemma_column_is(table.columns, 4);
    let p = |c: ContainerView| all || engine::active(c.state);
    let at = lemma_listed_container(containers, p, row);
    assert(table.rows[row] == container_row(containers[at], now));
    at
}

proof fn lemma_listed_container(
    containers: Seq<ContainerView>,
    p: spec_fn(ContainerView) -> bool,
    row: int,
) -> (at: int)
    requires
        0 <= row < tree::containers_in_order(containers).filter(p).len(),
    ensures
        0 <= at < containers.len(),
        containers[at] == tree::containers_in_order(containers).filter(p)[row],
        p(containers[at]),
{
    let listed = tree::containers_in_order(containers);
    let shown = listed.filter(p);
    lists::lemma_filter_keeps(listed, p);
    assert(shown.contains(shown[row]));
    arrange::law_sorting_keeps_every_item(
        containers,
        containers.map_values(|c: ContainerView| tree::container_rank(c)),
    );
    assert(listed.contains(shown[row]));
    assert(containers.contains(shown[row]));
    choose|at: int| 0 <= at < containers.len() && containers[at] == shown[row]
}

/// Nothing that is to be shown is left out: every image has a row, but for the untagged ones
/// where those are hidden, and so has every container, but for those without a process.
pub proof fn law_tables_leave_out_only_what_is_hidden(
    images: Seq<ImageView>,
    containers: Seq<ContainerView>,
    now: i64,
    all: bool,
)
    ensures
        forall|i: int|
            0 <= i < images.len() && (all || !crate::model::format::untagged(#[trigger] images[i]))
                ==> keys_of(images_table(images, containers, now, all).rows).contains(
                NodeKey::Image(images[i].id),
            ),
        forall|i: int|
            0 <= i < containers.len() && (all || engine::active((#[trigger] containers[i]).state))
                ==> keys_of(containers_table(containers, now, all).rows).contains(
                NodeKey::Container(containers[i].id),
            ) && keys_of(process_table(containers, now, all).rows).contains(
                NodeKey::Container(containers[i].id),
            ),
{
    let sorted = tree::images_in_order(images);
    let p = |i: ImageView| all || !crate::model::format::untagged(i);
    lists::lemma_filter_keeps(sorted, p);
    arrange::law_sorting_keeps_every_item(
        images,
        images.map_values(|i: ImageView| tree::image_rank(i)),
    );
    let rows = images_table(images, containers, now, all).rows;
    assert forall|i: int|
        0 <= i < images.len() && (all || !crate::model::format::untagged(
            #[trigger] images[i],
        )) implies keys_of(rows).contains(NodeKey::Image(images[i].id)) by {
        assert(images.contains(images[i]));
        assert(sorted.contains(images[i]));
        assert(p(images[i]));
        let shown = sorted.filter(p);
        assert(shown.contains(images[i]));
        let at = choose|at: int| 0 <= at < shown.len() && shown[at] == images[i];
        assert(keys_of(rows)[at] == NodeKey::Image(images[i].id));
    }
    let listed = tree::containers_in_order(containers);
    let q = |c: ContainerView| all || engine::active(c.state);
    lists::lemma_filter_keeps(listed, q);
    arrange::law_sorting_keeps_every_item(
        containers,
        containers.map_values(|c: ContainerView| tree::container_rank(c)),
    );
    let lines = containers_table(containers, now, all).rows;
    let processes = process_table(containers, now, all).rows;
    assert forall|i: int|
        0 <= i < containers.len() && (all || engine::active(
            (#[trigger] containers[i]).state,
        )) implies keys_of(lines).contains(NodeKey::Container(containers[i].id)) && keys_of(
        processes,
    ).contains(NodeKey::Container(containers[i].id)) by {
        assert(containers.contains(containers[i]));
        assert(listed.contains(containers[i]));
        assert(q(containers[i]));
        let shown = listed.filter(q);
        assert(shown.contains(containers[i]));
        let at = choose|at: int| 0 <= at < shown.len() && shown[at] == containers[i];
        assert(keys_of(lines)[at] == NodeKey::Container(containers[i].id));
        assert(keys_of(processes)[at] == NodeKey::Container(containers[i].id));
    }
}

/// Each port of a container is told, between commas, in the order in which it is listed.
pub proof fn law_ports_are_told_one_by_one(ports: Seq<PortView>, next: PortView)
    ensures
        ports_text(Seq::empty()) == "none"@,
        ports_text(seq![next]) == crate::model::format::port_text(next),
        ports.len() > 0 ==> ports_text(ports.push(next)) == ports_text(ports) + ", "@
            + crate::model::format::port_text(next),
{
    let told = |p: PortView| crate::model::format::port_text(p);
    assert(seq![next].map_values(told) =~= seq![told(next)]);
    text::law_texts_are_joined_one_by_one(Seq::empty(), told(next), ", "@);
    assert(Seq::<Seq<char>>::empty().push(told(next)) =~= seq![told(next)]);
    assert(ports.push(next).map_values(told) =~= ports.map_values(told).push(told(next)));
    text::law_texts_are_joined_one_by_one(ports.map_values(told), told(next), ", "@);
}

/// Whether the columns of figures are those whose cells sort by figures.
pub open spec fn figures_sort_as_figures(table: TableView) -> bool {
    forall|row: int, i: int|
        0 <= row < table.rows.len() && 0 <= i < table.columns.len() ==> ((
        #[trigger] table.columns[i]).numeric <==> (#[trigger] table.rows[row].cells[i]).sort
            is Number)
}

/// In every table the columns of figures sort by figures and all others by their text.
pub proof fn law_figures_sort_as_figures(
    images: Seq<ImageView>,
    containers: Seq<ContainerView>,
    now: i64,
    all: bool,
)
    ensures
        figures_sort_as_figures(images_table(images, containers, now, all)),
        figures_sort_as_figures(containers_table(containers, now, all)),
        figures_sort_as_figures(process_table(containers, now, all)),
{
}

} // verus!
