//! Memory samples, and what they add up to.

use vstd::prelude::*;

use crate::engine;
use crate::engine::{ContainerStats, ContainerSummary, ContainerView, StatsView};
use crate::lists;
use crate::lists::put;
use crate::ordered;
use crate::ordered::TextMap;

verus! {

/// The most recent memory sample for each container, by ID.
#[derive(Debug, Clone, PartialEq, Eq, Default)]
pub struct StatsIndex {
    by_id: TextMap<ContainerStats>,
}

impl DeepView for StatsIndex {
    type V = Seq<(Seq<char>, StatsView)>;

    closed spec fn deep_view(&self) -> Seq<(Seq<char>, StatsView)> {
        self.by_id.deep_view()
    }
}

/// Memory across a set of containers, with how much of that set was actually measured.
///
/// The count matters: a total over three of five running containers is not the
/// machine's figure, and a page that showed it as one would be lying.
#[derive(Debug, Clone, Copy, PartialEq, Eq, Default)]
pub struct MemoryTotal {
    pub bytes: i64,
    pub measured: usize,
    pub unmeasured: usize,
}

impl MemoryTotal {
    /// True when nothing was measured.
    #[must_use]
    pub fn is_empty(&self) -> (empty: bool)
        ensures
            empty == (self.measured == 0),
    {
        self.measured == 0
    }

    /// True when something was left out, and so the total is a floor rather than a sum.
    #[must_use]
    pub fn is_partial(&self) -> (partial: bool)
        ensures
            partial == (self.unmeasured > 0),
    {
        self.unmeasured > 0
    }
}

/// Bytes in use by one container, when it has been measured.
pub open spec fn memory_of(samples: Seq<(Seq<char>, StatsView)>, id: Seq<char>) -> Option<i64> {
    match ordered::lookup(samples, id) {
        Some(stats) => if stats.memory_usage >= 0 {
            Some(stats.memory_usage)
        } else {
            None
        },
        None => None,
    }
}

/// The bytes in use by the active containers that were measured.
pub open spec fn measured_bytes(
    samples: Seq<(Seq<char>, StatsView)>,
    containers: Seq<ContainerView>,
) -> int
    decreases containers.len(),
{
    if containers.len() == 0 {
        0
    } else {
        let last = containers.last();
        measured_bytes(samples, containers.drop_last()) + (if engine::active(last.state) {
            match memory_of(samples, last.id) {
                Some(bytes) => bytes as int,
                None => 0,
            }
        } else {
            0
        })
    }
}

/// How many containers are active and were measured, or were not.
pub open spec fn measured_count(
    samples: Seq<(Seq<char>, StatsView)>,
    containers: Seq<ContainerView>,
    measured: bool,
) -> nat {
    containers.filter(
        |c: ContainerView| engine::active(c.state) && (memory_of(samples, c.id) is Some) == measured,
    ).len()
}

/// The ids of some containers.
pub open spec fn container_ids(containers: Seq<ContainerView>) -> Seq<Seq<char>> {
    containers.map_values(|c: ContainerView| c.id)
}

impl StatsIndex {
    /// An index without samples.
    #[must_use]
    pub fn new() -> (index: Self)
        ensures
            index.deep_view() == Seq::<(Seq<char>, StatsView)>::empty(),
    {
        StatsIndex { by_id: TextMap::new() }
    }

    /// Keeps a sample, in place of an earlier one of the same container.
    pub fn insert(&mut self, stats: ContainerStats)
        ensures
            final(self).deep_view() == ordered::inserted(
                old(self).deep_view(),
                stats.id@,
                stats.deep_view(),
            ),
    {
        self.by_id.insert(stats.id.clone(), stats);
    }

    /// The latest sample of a container.
    #[must_use]
    pub fn get(&self, id: &str) -> (stats: Option<&ContainerStats>)
        ensures
            stats.deep_view() == ordered::lookup(self.deep_view(), id@),
    {
        self.by_id.get(id)
    }

    /// Bytes in use by one container, or `None` when it has not been measured.
    #[must_use]
    pub fn memory(&self, id: &str) -> (bytes: Option<i64>)
        ensures
            bytes == memory_of(self.deep_view(), id@),
    {
        match self.get(id) {
            Some(stats) => if stats.has_memory() {
                Some(stats.memory_usage)
            } else {
                None
            },
            None => None,
        }
    }

    /// How many containers have a sample.
    #[must_use]
    pub fn len(&self) -> (len: usize)
        ensures
            len == self.deep_view().len(),
            ordered::ascending(self.deep_view()),
    {
        self.by_id.len()
    }

    /// Whether there is no sample.
    #[must_use]
    pub fn is_empty(&self) -> (empty: bool)
        ensures
            empty == (self.deep_view().len() == 0),
    {
        self.by_id.is_empty()
    }

    /// Forget the containers that are no longer there, so a long run does not
    /// accumulate samples for things that have been removed.
    pub fn retain_known(&mut self, containers: &[ContainerSummary])
        ensures
            final(self).deep_view() == ordered::retained(
                old(self).deep_view(),
                container_ids(containers.deep_view()),
            ),
    {
        let mut ids: Vec<String> = Vec::new();
        let mut i: usize = 0;
        while i < containers.len()
            invariant
                i <= containers@.len(),
                ids.deep_view() == container_ids(containers.deep_view()).take(i as int),
            decreases containers@.len() - i,
        {
            put(&mut ids, containers[i].id.clone());
            i += 1;
            assert(ids.deep_view() =~= container_ids(containers.deep_view()).take(i as int));
        }
        assert(ids.deep_view() =~= container_ids(containers.deep_view()));
        self.by_id.retain_keys(&ids);
    }

    /// Memory across the containers that are executing. Stopped ones are not counted
    /// as unmeasured: they are holding nothing, and there is nothing to measure.
    #[must_use]
    pub fn running_total(&self, containers: &[ContainerSummary]) -> (total: MemoryTotal)
        requires
            measured_bytes(self.deep_view(), containers.deep_view()) <= i64::MAX,
        ensures
            total.bytes == measured_bytes(self.deep_view(), containers.deep_view()),
            total.measured == measured_count(self.deep_view(), containers.deep_view(), true),
            total.unmeasured == measured_count(self.deep_view(), containers.deep_view(), false),
    {
        let ghost all = containers.deep_view();
        let ghost samples = self.deep_view();
        let ghost yes = |c: ContainerView|
            engine::active(c.state) && (memory_of(samples, c.id) is Some) == true;
        let ghost no = |c: ContainerView|
            engine::active(c.state) && (memory_of(samples, c.id) is Some) == false;
        let mut total = MemoryTotal { bytes: 0, measured: 0, unmeasured: 0 };
        let mut i: usize = 0;
        proof {
            lists::lemma_filter_ends(all, yes);
            lists::lemma_filter_ends(all, no);
        }
        while i < containers.len()
            invariant
                i <= containers@.len(),
                all == containers.deep_view(),
                samples == self.deep_view(),
                yes == (|c: ContainerView|
                    engine::active(c.state) && (memory_of(samples, c.id) is Some) == true),
                no == (|c: ContainerView|
                    engine::active(c.state) && (memory_of(samples, c.id) is Some) == false),
                measured_bytes(samples, all) <= i64::MAX,
                0 <= total.bytes,
                total.bytes == measured_bytes(samples, all.take(i as int)),
                total.measured == all.take(i as int).filter(yes).len(),
                total.unmeasured == all.take(i as int).filter(no).len(),
                total.measured + total.unmeasured <= i,
            decreases containers@.len() - i,
        {
            proof {
                lists::lemma_filter_step(all, yes, i as int);
                lists::lemma_filter_step(all, no, i as int);
                assert(all.take(i + 1).drop_last() =~= all.take(i as int));
                assert(all.take(i + 1).last() == all[i as int]);
                lemma_bytes_grow(samples, all, i + 1);
            }
            let container = &containers[i];
            if container.state.is_active() {
                match self.memory(container.id.as_str()) {
                    Some(bytes) => {
                        total.bytes = total.bytes + bytes;
                        total.measured = total.measured + 1;
                    },
                    None => {
                        total.unmeasured = total.unmeasured + 1;
                    },
                }
            }
            i += 1;
        }
        proof {
            lists::lemma_filter_ends(all, yes);
        }
        total
    }
}

proof fn lemma_bytes_grow(
    samples: Seq<(Seq<char>, StatsView)>,
    containers: Seq<ContainerView>,
    n: int,
)
    requires
        0 <= n <= containers.len(),
    ensures
        0 <= measured_bytes(samples, containers.take(n)) <= measured_bytes(samples, containers),
    decreases containers.len(),
{
    if n == containers.len() {
        assert(containers.take(n) =~= containers);
        if n > 0 {
            lemma_bytes_grow(samples, containers.drop_last(), n - 1);
        }
    } else {
        lemma_bytes_grow(samples, containers.drop_last(), n);
        assert(containers.drop_last().take(n) =~= containers.take(n));
    }
}

/// Every active container is counted once, as measured or as not.
pub proof fn law_every_active_container_is_counted(
    samples: Seq<(Seq<char>, StatsView)>,
    containers: Seq<ContainerView>,
)
    ensures
        measured_count(samples, containers, true) + measured_count(samples, containers, false)
            == containers.filter(|c: ContainerView| engine::active(c.state)).len(),
    decreases containers.len(),
{
    reveal(Seq::filter);
    if containers.len() > 0 {
        law_every_active_container_is_counted(samples, containers.drop_last());
    }
}

/// A sample is found by the container it describes, in place of the one before it, and
/// the samples of other containers stay as they were.
pub proof fn law_latest_sample_is_found(
    samples: Seq<(Seq<char>, StatsView)>,
    stats: StatsView,
    other: Seq<char>,
)
    requires
        ordered::ascending(samples),
    ensures
        memory_of(ordered::inserted(samples, stats.id, stats), stats.id) == (if stats.memory_usage
            >= 0 {
            Some(stats.memory_usage)
        } else {
            None
        }),
        other != stats.id ==> memory_of(ordered::inserted(samples, stats.id, stats), other)
            == memory_of(samples, other),
{
    ordered::law_insert_then_lookup(samples, stats.id, stats, other);
}

/// A running container adds what it holds to the total, and one to the measured or to those
/// that were not; one that does not run adds nothing.
pub proof fn law_what_runs_adds_to_the_total(
    samples: Seq<(Seq<char>, StatsView)>,
    containers: Seq<ContainerView>,
    next: ContainerView,
)
    ensures
        ({
            let more = containers.push(next);
            let held = memory_of(samples, next.id);
            &&& engine::active(next.state) ==> (held matches Some(bytes) ==> {
                &&& measured_bytes(samples, more) == measured_bytes(samples, containers) + bytes
                &&& measured_count(samples, more, true) == measured_count(samples, containers, true)
                    + 1
                &&& measured_count(samples, more, false) == measured_count(
                    samples,
                    containers,
                    false,
                )
            })
            &&& engine::active(next.state) && held is None ==> {
                &&& measured_bytes(samples, more) == measured_bytes(samples, containers)
                &&& measured_count(samples, more, true) == measured_count(samples, containers, true)
                &&& measured_count(samples, more, false) == measured_count(
                    samples,
                    containers,
                    false,
                ) + 1
            }
            &&& !engine::active(next.state) ==> {
                &&& measured_bytes(samples, more) == measured_bytes(samples, containers)
                &&& measured_count(samples, more, true) == measured_count(samples, containers, true)
                &&& measured_count(samples, more, false) == measured_count(
                    samples,
                    containers,
                    false,
                )
            }
        }),
        measured_bytes(samples, Seq::empty()) == 0,
        measured_count(samples, Seq::empty(), true) == 0,
        measured_count(samples, Seq::empty(), false) == 0,
{
    reveal(Seq::filter);
    assert(containers.push(next).drop_last() =~= containers);
}

/// The samples of the containers that are still there are kept as they were, and no others
/// are.
pub proof fn law_samples_are_kept_of_known_containers(
    samples: Seq<(Seq<char>, StatsView)>,
    containers: Seq<ContainerView>,
    id: Seq<char>,
)
    requires
        ordered::ascending(samples),
    ensures
        (exists|i: int| 0 <= i < containers.len() && (#[trigger] containers[i]).id == id)
            ==> ordered::lookup(ordered::retained(samples, container_ids(containers)), id)
            == ordered::lookup(samples, id),
        (forall|i: int| 0 <= i < containers.len() ==> (#[trigger] containers[i]).id != id)
            ==> ordered::lookup(ordered::retained(samples, container_ids(containers)), id) is None,
{
    ordered::law_retain_then_lookup(samples, container_ids(containers), id);
    let ids = container_ids(containers);
    if exists|i: int| 0 <= i < containers.len() && (#[trigger] containers[i]).id == id {
        let i = choose|i: int| 0 <= i < containers.len() && (#[trigger] containers[i]).id == id;
        assert(ids[i] == id);
    }
    if ids.contains(id) {
        let i = choose|i: int| 0 <= i < ids.len() && ids[i] == id;
        assert(containers[i].id == id);
    }
}

} // verus!
