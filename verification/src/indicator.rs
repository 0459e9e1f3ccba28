//! The status indicator: its icon, its tooltip and its menu.

use vstd::prelude::*;

use crate::activity::{Activity, ActivityState, ActivityView, StateView};
use crate::lists::put;
use crate::text;
use crate::text::{count_text, decimal_text};

verus! {

/// Indicator states. Each has a distinct icon shape as well as distinct text, so no
/// information is carried by colour alone.
#[derive(Debug, Clone, Copy, PartialEq, Eq)]
pub enum IndicatorIcon {
    Connected,
    Connecting,
    Reconnecting,
    Failed,
}

/// The themed icon of a state.
pub open spec fn themed_icon(icon: IndicatorIcon) -> Seq<char> {
    match icon {
        IndicatorIcon::Connected => "media-playback-start-symbolic"@,
        IndicatorIcon::Connecting => "content-loading-symbolic"@,
        IndicatorIcon::Reconnecting => "view-refresh-symbolic"@,
        IndicatorIcon::Failed => "dialog-warning-symbolic"@,
    }
}

impl IndicatorIcon {
    /// Fallback themed icon name, used when the embedded pixmaps are unavailable.
    #[must_use]
    pub fn icon_name(self) -> (name: &'static str)
        ensures
            name@ == themed_icon(self),
    {
        match self {
            IndicatorIcon::Connected => "media-playback-start-symbolic",
            IndicatorIcon::Connecting => "content-loading-symbolic",
            IndicatorIcon::Reconnecting => "view-refresh-symbolic",
            IndicatorIcon::Failed => "dialog-warning-symbolic",
        }
    }
}

/// Two states never share an icon.
pub proof fn law_icons_are_distinct(a: IndicatorIcon, b: IndicatorIcon)
    requires
        themed_icon(a) == themed_icon(b),
    ensures
        a == b,
{
    reveal_strlit("media-playback-start-symbolic");
    reveal_strlit("content-loading-symbolic");
    reveal_strlit("view-refresh-symbolic");
    reveal_strlit("dialog-warning-symbolic");
    assert("media-playback-start-symbolic"@[0] == 'm');
    assert("content-loading-symbolic"@[0] == 'c');
    assert("view-refresh-symbolic"@[0] == 'v');
    assert("dialog-warning-symbolic"@[0] == 'd');
}

/// Menu entries the user can invoke.
#[derive(Debug, Clone, Copy, PartialEq, Eq)]
pub enum MenuAction {
    Open,
    Quit,
}

/// One row of the menu.
#[derive(Debug, Clone, PartialEq, Eq)]
pub enum MenuItem {
    Action { action: MenuAction, label: String },
    /// Non-interactive status text.
    Info(String),
    Separator,
}

/// The value of a [`MenuItem`].
#[verifier::ext_equal]
pub enum MenuView {
    Action { action: MenuAction, label: Seq<char> },
    Info(Seq<char>),
    Separator,
}

impl DeepView for MenuItem {
    type V = MenuView;

    open spec fn deep_view(&self) -> MenuView {
        match self {
            MenuItem::Action { action, label } => MenuView::Action {
                action: *action,
                label: label@,
            },
            MenuItem::Info(line) => MenuView::Info(line@),
            MenuItem::Separator => MenuView::Separator,
        }
    }
}

/// What the tree currently holds, for the menu's summary lines.
#[derive(Debug, Clone, Copy, PartialEq, Eq, Default)]
pub struct Counts {
    pub images: usize,
    pub containers: usize,
    pub running: usize,
}

/// Everything the indicator shows.
#[derive(Debug, Clone, PartialEq, Eq)]
pub struct IndicatorModel {
    pub icon: IndicatorIcon,
    pub tooltip: String,
    pub items: Vec<MenuItem>,
}

/// The value of an [`IndicatorModel`].
#[verifier::ext_equal]
pub struct IndicatorView {
    pub icon: IndicatorIcon,
    pub tooltip: Seq<char>,
    pub items: Seq<MenuView>,
}

impl DeepView for IndicatorModel {
    type V = IndicatorView;

    open spec fn deep_view(&self) -> IndicatorView {
        IndicatorView {
            icon: self.icon,
            tooltip: self.tooltip@,
            items: self.items.deep_view(),
        }
    }
}

/// The icon that a connection state is shown with.
pub open spec fn icon_for(state: StateView) -> IndicatorIcon {
    match state {
        StateView::Connected => IndicatorIcon::Connected,
        StateView::Connecting => IndicatorIcon::Connecting,
        StateView::Reconnecting { .. } => IndicatorIcon::Reconnecting,
        StateView::Failed { .. } => IndicatorIcon::Failed,
    }
}

/// The line that a connection state is shown with.
pub open spec fn status_line(state: StateView) -> Seq<char> {
    match state {
        StateView::Connected => "Connected"@,
        StateView::Connecting => "Connecting\u{2026}"@,
        StateView::Reconnecting { delay, .. } => "Reconnecting in "@ + text::decimal(delay as nat)
            + "s"@,
        StateView::Failed { reason, .. } => "Disconnected: "@ + reason,
    }
}

/// A count with its noun.
pub open spec fn counted(count: nat, singular: Seq<char>, plural: Seq<char>) -> Seq<char> {
    if count == 1 {
        "1 "@ + singular
    } else {
        text::decimal(count) + " "@ + plural
    }
}

/// The line on containers.
pub open spec fn containers_counted(counts: Counts) -> Seq<char> {
    let containers = counted(counts.containers as nat, "container"@, "containers"@);
    if counts.running == 0 {
        containers
    } else {
        containers + " ("@ + text::decimal(counts.running as nat) + " running)"@
    }
}

/// The rows that open the menu.
pub open spec fn opening_items(state: StateView) -> Seq<MenuView> {
    seq![
        MenuView::Action { action: MenuAction::Open, label: "Open Lave Station"@ },
        MenuView::Separator,
        MenuView::Info(status_line(state)),
    ]
}

/// The rows on what the daemon holds, shown only while they are known to be true.
pub open spec fn count_items(state: StateView, counts: Counts) -> Seq<MenuView> {
    if state is Connected {
        seq![
            MenuView::Info(counted(counts.images as nat, "image"@, "images"@)),
            MenuView::Info(containers_counted(counts)),
        ]
    } else {
        seq![]
    }
}

/// The rows on the latest event.
pub open spec fn event_items(activity: ActivityView) -> Seq<MenuView> {
    if activity.log.len() > 0 {
        seq![MenuView::Separator, MenuView::Info(activity.log[0].text)]
    } else {
        seq![]
    }
}

/// The rows that close the menu.
pub open spec fn closing_items() -> Seq<MenuView> {
    seq![
        MenuView::Separator,
        MenuView::Action { action: MenuAction::Quit, label: "Quit"@ },
    ]
}

/// What the indicator shows.
pub open spec fn indicator(activity: ActivityView, counts: Counts) -> IndicatorView {
    IndicatorView {
        icon: icon_for(activity.state),
        tooltip: "Lave Station \u{2014} "@ + status_line(activity.state),
        items: opening_items(activity.state) + count_items(activity.state, counts) + event_items(
            activity,
        ) + closing_items(),
    }
}

/// Whatever the state, the menu opens with the way into the application and ends
/// with the way out of it.
pub proof fn law_menu_always_offers_open_and_quit(activity: ActivityView, counts: Counts)
    ensures
        ({
            let items = indicator(activity, counts).items;
            &&& items.first() matches MenuView::Action { action, .. } && action == MenuAction::Open
            &&& items.last() matches MenuView::Action { action, .. } && action == MenuAction::Quit
        }),
{
}

/// Counts are shown while the connection is open, and never otherwise.
pub proof fn law_counts_are_shown_only_while_connected(
    activity: ActivityView,
    counts: Counts,
    others: Counts,
)
    requires
        !(activity.state is Connected),
    ensures
        indicator(activity, counts) == indicator(activity, others),
{
}

/// Builds the indicator from the activity state and the current counts.
#[must_use]
pub fn model(activity: &Activity, counts: Counts) -> (shown: IndicatorModel)
    ensures
        shown.deep_view() == indicator(activity@, counts),
{
    let (icon, status) = match activity.state() {
        ActivityState::Connected => (IndicatorIcon::Connected, "Connected".to_owned()),
        ActivityState::Connecting => (IndicatorIcon::Connecting, "Connecting\u{2026}".to_owned()),
        ActivityState::Reconnecting { delay, .. } => (
            IndicatorIcon::Reconnecting,
            "Reconnecting in ".to_owned().concat(decimal_text(*delay).as_str()).concat("s"),
        ),
        ActivityState::Failed { reason, .. } => (
            IndicatorIcon::Failed,
            "Disconnected: ".to_owned().concat(reason.as_str()),
        ),
    };
    let tooltip = "Lave Station \u{2014} ".to_owned().concat(status.as_str());
    let mut items: Vec<MenuItem> = Vec::new();
    assert(items.deep_view() =~= seq![]);
    put(
        &mut items,
        MenuItem::Action { action: MenuAction::Open, label: "Open Lave Station".to_owned() },
    );
    put(&mut items, MenuItem::Separator);
    put(&mut items, MenuItem::Info(status));
    assert(items.deep_view() =~= opening_items(activity@.state));
    if activity.state().is_connected() {
        put(&mut items, MenuItem::Info(plural(counts.images, "image", "images")));
        put(&mut items, MenuItem::Info(containers_line(counts)));
    }
    assert(items.deep_view() =~= opening_items(activity@.state) + count_items(
        activity@.state,
        counts,
    ));
    let log = activity.log();
    assert(log.deep_view().len() == log@.len());
    if log.len() > 0 {
        put(&mut items, MenuItem::Separator);
        put(&mut items, MenuItem::Info(log[0].text.clone()));
    }
    assert(items.deep_view() =~= opening_items(activity@.state) + count_items(
        activity@.state,
        counts,
    ) + event_items(activity@));
    put(&mut items, MenuItem::Separator);
    put(&mut items, MenuItem::Action { action: MenuAction::Quit, label: "Quit".to_owned() });
    assert(items.deep_view() =~= indicator(activity@, counts).items);
    IndicatorModel { icon, tooltip, items }
}

/// The line on containers.
fn containers_line(counts: Counts) -> (line: String)
    ensures
        line@ == containers_counted(counts),
{
    let containers = plural(counts.containers, "container", "containers");
    if counts.running == 0 {
        containers
    } else {
        containers.concat(" (").concat(count_text(counts.running).as_str()).concat(" running)")
    }
}

/// A count with its noun.
fn plural(count: usize, singular: &str, many: &str) -> (line: String)
    ensures
        line@ == counted(count as nat, singular@, many@),
{
    if count == 1 {
        "1 ".to_owned().concat(singular)
    } else {
        count_text(count).concat(" ").concat(many)
    }
}

/// The indicator tells the state in the menu as in the tooltip, with the icon of that state;
/// while connected it counts images and containers, and it always tells the latest event.
pub proof fn law_the_menu_tells_the_state(activity: ActivityView, counts: Counts)
    ensures
        ({
            let shown = indicator(activity, counts);
            let status = status_line(activity.state);
            &&& status.is_suffix_of(shown.tooltip)
            &&& shown.items[2] == MenuView::Info(status)
            &&& shown.icon == IndicatorIcon::Connected <==> activity.state is Connected
            &&& shown.icon == IndicatorIcon::Connecting <==> activity.state is Connecting
            &&& shown.icon == IndicatorIcon::Reconnecting <==> activity.state is Reconnecting
            &&& shown.icon == IndicatorIcon::Failed <==> activity.state is Failed
            &&& activity.state is Connected && counts.images != 1 ==> shown.items[3]
                == MenuView::Info(text::decimal(counts.images as nat) + " "@ + "images"@)
            &&& activity.state is Connected && counts.images == 1 ==> shown.items[3]
                == MenuView::Info("1 "@ + "image"@)
            &&& activity.state is Connected && counts.containers != 1 && counts.running == 0
                ==> shown.items[4] == MenuView::Info(
                text::decimal(counts.containers as nat) + " "@ + "containers"@,
            )
            &&& activity.state is Connected && counts.containers != 1 && counts.running > 0
                ==> shown.items[4] == MenuView::Info(
                text::decimal(counts.containers as nat) + " "@ + "containers"@ + " ("@
                    + text::decimal(counts.running as nat) + " running)"@,
            )
            &&& activity.state is Connected && counts.containers == 1 && counts.running == 1
                ==> shown.items[4] == MenuView::Info(
                "1 "@ + "container"@ + " ("@ + text::decimal(1) + " running)"@,
            )
            &&& activity.log.len() > 0 ==> shown.items[shown.items.len() - 3] == MenuView::Info(
                activity.log[0].text,
            )
            &&& activity.log.len() == 0 && !(activity.state is Connected) ==> shown.items.len() == 5
        }),
{
    let shown = indicator(activity, counts);
    let status = status_line(activity.state);
    assert(shown.tooltip.subrange(
        shown.tooltip.len() - status.len(),
        shown.tooltip.len() as int,
    ) =~= status);
}

/// A wait is told in its seconds and a failure with its reason.
pub proof fn law_states_are_told_with_their_figures(
    attempt: u32,
    delay: u64,
    reason: Seq<char>,
    hint: Option<Seq<char>>,
)
    ensures
        status_line(StateView::Reconnecting { attempt, delay }) == "Reconnecting in "@
            + text::decimal(delay as nat) + "s"@,
        reason.is_suffix_of(status_line(StateView::Failed { reason, hint })),
        status_line(StateView::Connected) == "Connected"@,
        status_line(StateView::Connecting) == "Connecting\u{2026}"@,
{
    let said = status_line(StateView::Failed { reason, hint });
    assert(said.subrange(said.len() - reason.len(), said.len() as int) =~= reason);
}

/// The menu's own entries say what they do.
pub proof fn law_menu_entries_say_what_they_do(activity: ActivityView, counts: Counts)
    ensures
        ({
            let items = indicator(activity, counts).items;
            &&& items.first() == (MenuView::Action {
                action: MenuAction::Open,
                label: "Open Lave Station"@,
            })
            &&& items.last() == (MenuView::Action { action: MenuAction::Quit, label: "Quit"@ })
        }),
{
}

} // verus!
