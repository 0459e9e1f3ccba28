//! Which tabs the commands of the tab context menu close.

use vstd::prelude::*;

verus! {

/// The three commands the tab context menu offers.
#[derive(Debug, Clone, Copy, PartialEq, Eq)]
pub enum Scope {
    /// Every tab that can be closed, including the one the menu was opened on.
    All,
    /// Those before it.
    ToLeft,
    /// Those after it.
    ToRight,
}

impl Scope {
    /// The command's wording.
    #[must_use]
    pub fn label(self) -> (label: &'static str)
        ensures
            label@ == (match self {
                Scope::All => "Close All Tabs"@,
                Scope::ToLeft => "Close All Tabs to the Left"@,
                Scope::ToRight => "Close All Tabs to the Right"@,
            }),
    {
        match self {
            Scope::All => "Close All Tabs",
            Scope::ToLeft => "Close All Tabs to the Left",
            Scope::ToRight => "Close All Tabs to the Right",
        }
    }
}

/// The position that `subject` stands for: the last tab when it lies beyond.
pub open spec fn subject_of(tabs: int, subject: int) -> int {
    if subject < tabs {
        subject
    } else if tabs > 0 {
        tabs - 1
    } else {
        0
    }
}

/// The first tab that is not pinned.
pub open spec fn first_of(tabs: int, pinned: int) -> int {
    if pinned < tabs {
        pinned
    } else {
        tabs
    }
}

/// The tabs from `from` up to `to`.
pub open spec fn positions(from: int, to: int) -> Seq<usize> {
    Seq::new(
        if from < to {
            (to - from) as nat
        } else {
            0
        },
        |i: int| (from + i) as usize,
    )
}

/// The tabs that a command closes.
pub open spec fn closed_by(scope: Scope, tabs: int, subject: int, pinned: int) -> Seq<usize> {
    let first = first_of(tabs, pinned);
    let at = subject_of(tabs, subject);
    match scope {
        Scope::All => positions(first, tabs),
        Scope::ToLeft => positions(first, at),
        Scope::ToRight => positions(
            if at + 1 < first {
                first
            } else {
                at + 1
            },
            tabs,
        ),
    }
}

/// The tabs `scope` closes, by position.
///
/// Pinned tabs are never among them: they are pinned precisely because there is
/// nothing sensible to close them to. A tab view keeps its pinned tabs at the
/// front, so they are the first `pinned` positions.
#[must_use]
pub fn closing(scope: Scope, tabs: usize, subject: usize, pinned: usize) -> (closed: Vec<usize>)
    ensures
        closed@ == closed_by(scope, tabs as int, subject as int, pinned as int),
{
    let first: usize = if pinned < tabs {
        pinned
    } else {
        tabs
    };
    let at: usize = if subject < tabs {
        subject
    } else if tabs > 0 {
        tabs - 1
    } else {
        0
    };
    let (from, to): (usize, usize) = match scope {
        Scope::All => (first, tabs),
        Scope::ToLeft => (first, at),
        Scope::ToRight => (
            if at < first {
                first
            } else if at < tabs {
                at + 1
            } else {
                tabs
            },
            tabs,
        ),
    };
    let mut closed: Vec<usize> = Vec::new();
    let mut i: usize = from;
    while i < to
        invariant
            from <= i,
            i <= to || i == from,
            closed@ == positions(from as int, i as int),
        decreases to - i,
    {
        closed.push(i);
        assert(closed@ =~= positions(from as int, i + 1));
        i += 1;
    }
    assert(closed@ =~= closed_by(scope, tabs as int, subject as int, pinned as int));
    closed
}

/// Whether the command is worth offering: a command that would close nothing is
/// greyed out rather than left to do nothing when chosen.
#[must_use]
pub fn is_offered(scope: Scope, tabs: usize, subject: usize, pinned: usize) -> (offered: bool)
    ensures
        offered == (closed_by(scope, tabs as int, subject as int, pinned as int).len() > 0),
{
    closing(scope, tabs, subject, pinned).len() > 0
}

/// No command closes a pinned tab, or one that is not there.
pub proof fn law_pinned_tabs_stay(scope: Scope, tabs: usize, subject: usize, pinned: usize)
    ensures
        forall|i: int|
            0 <= i < closed_by(scope, tabs as int, subject as int, pinned as int).len()
                ==> pinned <= #[trigger] closed_by(
                scope,
                tabs as int,
                subject as int,
                pinned as int,
            )[i] < tabs,
{
}

/// Closing everything is closing what is to the left, the tab itself unless it
/// is pinned, and what is to the right.
pub proof fn law_sides_make_up_the_whole(tabs: usize, subject: usize, pinned: usize)
    requires
        subject < tabs,
    ensures
        closed_by(Scope::All, tabs as int, subject as int, pinned as int) == closed_by(
            Scope::ToLeft,
            tabs as int,
            subject as int,
            pinned as int,
        ) + (if pinned <= subject {
            seq![subject]
        } else {
            Seq::empty()
        }) + closed_by(Scope::ToRight, tabs as int, subject as int, pinned as int),
{
    let all = closed_by(Scope::All, tabs as int, subject as int, pinned as int);
    let left = closed_by(Scope::ToLeft, tabs as int, subject as int, pinned as int);
    let right = closed_by(Scope::ToRight, tabs as int, subject as int, pinned as int);
    let mid = if pinned <= subject {
        seq![subject]
    } else {
        Seq::<usize>::empty()
    };
    assert(all =~= left + mid + right);
}

/// The commands close what they say: everything, what is before the tab, or what is behind
/// it, but for the pinned tabs, each tab once and from the first to the last.
pub proof fn law_commands_close_what_they_say(
    tabs: usize,
    subject: usize,
    pinned: usize,
    tab: usize,
)
    requires
        subject < tabs,
    ensures
        closed_by(Scope::All, tabs as int, subject as int, pinned as int).contains(tab) <==> pinned
            <= tab < tabs,
        closed_by(Scope::ToLeft, tabs as int, subject as int, pinned as int).contains(tab)
            <==> pinned <= tab < subject,
        closed_by(Scope::ToRight, tabs as int, subject as int, pinned as int).contains(tab)
            <==> pinned <= tab < tabs && subject < tab,
{
    let all = closed_by(Scope::All, tabs as int, subject as int, pinned as int);
    let left = closed_by(Scope::ToLeft, tabs as int, subject as int, pinned as int);
    let right = closed_by(Scope::ToRight, tabs as int, subject as int, pinned as int);
    if pinned <= tab < tabs {
        assert(all[tab - pinned] == tab);
        if tab < subject {
            assert(left[tab - pinned] == tab);
        }
        if subject < tab {
            let from = if subject + 1 < pinned {
                pinned as int
            } else {
                subject + 1
            };
            assert(right[tab - from] == tab);
        }
    }
}

} // verus!
