use lave_core::engine::{ContainerState, ContainerSummary, ImageSummary, Lifecycle};
use lave_core::model::action::{
    Action, BulkOffer, Offer, Tally, bulk_outcome, for_container, for_environment, for_image,
    for_selection,
};
use lave_core::model::tree::Tone;

#[test]
fn an_empty_listing_has_nothing_to_check() {
    let tally = Tally::new(0, 0);

    assert!(tally.is_empty());
    assert!(!tally.any());
    assert!(!tally.is_partial());
    assert!(!tally.is_complete());
    assert_eq!(tally.select_all_label(), "There is nothing to check");
}

#[test]
fn a_listing_with_nothing_checked_offers_to_check_everything() {
    let tally = Tally::new(4, 0);

    assert!(!tally.any());
    assert!(!tally.is_partial());
    assert!(!tally.is_complete());
    assert_eq!(tally.select_all_label(), "Check every row");
}

#[test]
fn a_part_checked_listing_is_neither_checked_nor_unchecked() {
    let tally = Tally::new(4, 1);

    assert!(tally.any());
    assert!(tally.is_partial());
    assert!(!tally.is_complete());
    // Half-checked, the useful next move is still to check the rest.
    assert_eq!(tally.select_all_label(), "Check every row");
}

#[test]
fn a_fully_checked_listing_offers_to_clear_itself() {
    let tally = Tally::new(4, 4);

    assert!(tally.any());
    assert!(!tally.is_partial());
    assert!(tally.is_complete());
    assert_eq!(tally.select_all_label(), "Uncheck every row");
}

#[test]
fn more_checked_than_present_cannot_report_a_mixed_state() {
    // Ticks outlive the objects they were made against for a moment, between an
    // action landing and the listing that follows it.
    let tally = Tally::new(2, 5);

    assert_eq!(tally.checked, 2);
    assert!(tally.is_complete());
    assert!(!tally.is_partial());
}

fn container(name: &str, state: ContainerState) -> ContainerSummary {
    ContainerSummary {
        id: format!("id-of-{name}"),
        names: vec![name.to_owned()],
        image: "nginx:1.27".to_owned(),
        image_id: "sha256:nginx".to_owned(),
        state,
        ..ContainerSummary::default()
    }
}

fn image(tag: &str) -> ImageSummary {
    ImageSummary {
        id: "sha256:nginx".to_owned(),
        repo_tags: vec![tag.to_owned()],
        size: 1024 * 1024 * 50,
        ..ImageSummary::default()
    }
}

fn untagged(id: &str, created: i64) -> ImageSummary {
    ImageSummary {
        id: id.to_owned(),
        repo_tags: Vec::new(),
        created,
        size: 1024 * 1024 * 10,
        ..ImageSummary::default()
    }
}

fn actions(offers: &[Offer]) -> Vec<Action> {
    offers.iter().map(|offer| offer.action).collect()
}

#[test]
fn a_running_container_can_be_stopped_but_not_started() {
    let offers = for_container(&container("web", ContainerState::Running), &[]);

    assert!(actions(&offers).contains(&Action::Lifecycle(Lifecycle::Stop)));
    assert!(!actions(&offers).contains(&Action::Lifecycle(Lifecycle::Start)));
}

#[test]
fn a_stopped_container_can_be_started_but_not_stopped() {
    let offers = for_container(&container("web", ContainerState::Exited), &[]);

    assert!(actions(&offers).contains(&Action::Lifecycle(Lifecycle::Start)));
    assert!(!actions(&offers).contains(&Action::Lifecycle(Lifecycle::Stop)));
    assert!(
        !actions(&offers).contains(&Action::Lifecycle(Lifecycle::Kill)),
        "killing something already stopped is meaningless"
    );
}

#[test]
fn a_container_in_mid_transition_is_offered_no_further_transition() {
    for state in [ContainerState::Restarting, ContainerState::Stopping] {
        let offers = for_container(&container("web", state.clone()), &[]);

        let transitions: Vec<Action> = actions(&offers)
            .into_iter()
            .filter(|action| matches!(action, Action::Lifecycle(_)))
            .collect();

        // Restarting is active, so Kill remains as the way out of a restart loop.
        assert!(
            transitions
                .iter()
                .all(|action| *action == Action::Lifecycle(Lifecycle::Kill)),
            "{state:?} offered {transitions:?}"
        );
    }
}

#[test]
fn logs_and_files_are_offered_whatever_the_state_because_both_work_stopped() {
    for state in [
        ContainerState::Running,
        ContainerState::Exited,
        ContainerState::Created,
        ContainerState::Dead,
    ] {
        let offers = for_container(&container("web", state.clone()), &[]);

        assert!(
            actions(&offers).contains(&Action::ViewLogs),
            "{state:?} should offer logs"
        );
        assert!(
            actions(&offers).contains(&Action::BrowseFilesystem),
            "{state:?} should offer the filesystem"
        );
    }
}

#[test]
fn every_reversible_action_acts_without_a_dialog() {
    let offers = for_container(&container("web", ContainerState::Running), &[]);

    for offer in &offers {
        if !offer.is_destructive() {
            assert!(
                offer.confirmation.is_none(),
                "{:?} is reversible and should not confirm",
                offer.action
            );
        }
    }
}

#[test]
fn every_destructive_action_confirms() {
    let running = container("web", ContainerState::Running);
    let images = vec![image("nginx:1.27")];
    let stopped = container("old", ContainerState::Exited);

    let all: Vec<Offer> = for_container(&running, &images)
        .into_iter()
        .chain(for_image(&images[0], &[]))
        .chain(for_environment(&[stopped], &[untagged("sha256:d", 1)]))
        .collect();

    for offer in &all {
        assert_eq!(
            offer.is_destructive(),
            offer.confirmation.is_some(),
            "{:?} disagrees with its confirmation",
            offer.action
        );
    }
}

#[test]
fn removing_a_running_container_says_it_will_be_killed_first() {
    let offers = for_container(
        &container("web", ContainerState::Running),
        &[image("nginx:1.27")],
    );

    let remove = offers
        .iter()
        .find(|offer| matches!(offer.action, Action::RemoveContainer { .. }))
        .expect("remove is offered");
    let confirmation = remove.confirmation.as_ref().expect("it confirms");

    assert_eq!(remove.action, Action::RemoveContainer { force: true });
    assert!(
        confirmation.body.contains("killed"),
        "{}",
        confirmation.body
    );
    assert!(confirmation.heading.contains("web"));
}

#[test]
fn removing_a_stopped_container_does_not_threaten_to_kill_it() {
    let offers = for_container(
        &container("old", ContainerState::Exited),
        &[image("nginx:1.27")],
    );

    let remove = offers
        .iter()
        .find(|offer| matches!(offer.action, Action::RemoveContainer { .. }))
        .expect("remove is offered");
    let confirmation = remove.confirmation.as_ref().expect("it confirms");

    assert_eq!(remove.action, Action::RemoveContainer { force: false });
    assert!(
        !confirmation.body.contains("killed"),
        "{}",
        confirmation.body
    );
}

#[test]
fn a_removal_names_the_object_rather_than_only_its_id() {
    let offers = for_container(
        &container("web", ContainerState::Exited),
        &[image("nginx:1.27")],
    );

    let confirmation = offers
        .iter()
        .find_map(|offer| offer.confirmation.as_ref())
        .expect("something confirms");

    assert!(
        confirmation.heading.contains("web"),
        "{}",
        confirmation.heading
    );
    assert!(
        confirmation.body.contains("nginx:1.27"),
        "the image should be named so the consequence is legible: {}",
        confirmation.body
    );
}

#[test]
fn removing_an_image_a_container_still_uses_warns_it_will_be_refused() {
    let image = image("nginx:1.27");
    let user = container("web", ContainerState::Running);

    let offers = for_image(&image, &[user]);
    let confirmation = offers
        .iter()
        .find(|offer| offer.action == Action::RemoveImage)
        .and_then(|offer| offer.confirmation.as_ref())
        .expect("remove confirms");

    assert!(
        confirmation.body.contains("refuse"),
        "{}",
        confirmation.body
    );
    assert_eq!(confirmation.items, vec!["web".to_owned()]);
}

#[test]
fn removing_an_unused_image_reports_what_it_reclaims() {
    let image = image("nginx:1.27");

    let confirmation = for_image(&image, &[])
        .into_iter()
        .find(|offer| offer.action == Action::RemoveImage)
        .and_then(|offer| offer.confirmation)
        .expect("remove confirms");

    assert!(confirmation.items.is_empty());
    // 50 MiB, rendered in the decimal units format::bytes uses throughout.
    assert!(
        confirmation.body.contains("52.4 MB"),
        "{}",
        confirmation.body
    );
}

#[test]
fn prune_is_not_offered_when_there_is_nothing_to_prune() {
    let running = container("web", ContainerState::Running);
    let tagged = image("nginx:1.27");

    assert!(for_environment(&[running], &[tagged]).is_empty());
}

#[test]
fn a_prune_preview_names_every_object_rather_than_counting_them() {
    let containers = vec![
        container("beta", ContainerState::Exited),
        container("alpha", ContainerState::Exited),
        container("live", ContainerState::Running),
    ];

    let offers = for_environment(&containers, &[]);
    let confirmation = offers
        .iter()
        .find(|offer| offer.action == Action::PruneContainers)
        .and_then(|offer| offer.confirmation.as_ref())
        .expect("prune confirms");

    // Named, sorted, and the running one is absent.
    assert_eq!(
        confirmation.items,
        vec!["alpha".to_owned(), "beta".to_owned()]
    );
    assert!(
        confirmation.heading.contains('2'),
        "{}",
        confirmation.heading
    );
}

#[test]
fn pruning_images_covers_only_untagged_ones() {
    let images = vec![image("nginx:1.27"), untagged("sha256:aaa", 100)];

    let offers = for_environment(&[], &images);
    let confirmation = offers
        .iter()
        .find(|offer| offer.action == Action::PruneImages)
        .and_then(|offer| offer.confirmation.as_ref())
        .expect("prune confirms");

    assert_eq!(confirmation.items.len(), 1);
    assert!(
        !confirmation.items.iter().any(|item| item.contains("nginx")),
        "a tagged image must never appear in the preview: {:?}",
        confirmation.items
    );
}

#[test]
fn pruning_images_warns_when_one_is_still_carrying_a_container() {
    let orphan = ImageSummary {
        id: "sha256:orphan".to_owned(),
        repo_tags: Vec::new(),
        ..ImageSummary::default()
    };
    let user = ContainerSummary {
        image_id: "sha256:orphan".to_owned(),
        names: vec!["web".to_owned()],
        state: ContainerState::Running,
        ..ContainerSummary::default()
    };

    let offers = for_environment(&[user], &[orphan]);
    let confirmation = offers
        .iter()
        .find(|offer| offer.action == Action::PruneImages)
        .and_then(|offer| offer.confirmation.as_ref())
        .expect("prune confirms");

    assert!(
        confirmation.body.contains("still in use"),
        "{}",
        confirmation.body
    );
}

#[test]
fn only_what_removes_or_halts_is_marked_out_in_red() {
    let running = container("web", ContainerState::Running);
    let offers = for_container(&running, &[image("nginx:1.27")]);

    let tone = |label: &str| {
        offers
            .iter()
            .find(|offer| offer.label == label)
            .map(Offer::tone)
            .expect("that action is offered")
    };

    assert_eq!(tone("Stop"), Tone::Bad);
    assert_eq!(tone("Kill"), Tone::Bad);
    assert_eq!(tone("Remove"), Tone::Bad);
    assert_eq!(tone("Restart"), Tone::Neutral);
    assert_eq!(tone("Pause"), Tone::Neutral);
    assert_eq!(tone("Logs"), Tone::Neutral);
}

#[test]
fn a_mixed_selection_offers_each_action_for_the_containers_it_applies_to() {
    let running = container("web", ContainerState::Running);
    let stopped = container("old", ContainerState::Exited);
    let also_stopped = container("older", ContainerState::Exited);

    let offers = for_selection(&[&running, &stopped, &also_stopped], &[], &[], &[]);

    let find = |action: Action| {
        offers
            .iter()
            .find(|offer| offer.action == action)
            .expect("that action is offered")
    };

    let start = find(Action::Lifecycle(Lifecycle::Start));
    assert_eq!(start.targets.len(), 2, "only the stopped ones can start");
    assert_eq!(start.label, "Start 2 Containers");

    let stop = find(Action::Lifecycle(Lifecycle::Stop));
    assert_eq!(stop.targets.len(), 1, "only the running one can stop");
    assert_eq!(stop.label, "Stop 1 Container");
    assert_eq!(stop.targets[0].id, running.id);
}

#[test]
fn a_bulk_action_is_not_offered_when_it_applies_to_nothing_selected() {
    let stopped = container("old", ContainerState::Exited);

    let actions: Vec<Action> = for_selection(&[&stopped], &[], &[], &[])
        .iter()
        .map(|offer| offer.action)
        .collect();

    assert!(!actions.contains(&Action::Lifecycle(Lifecycle::Stop)));
    assert!(!actions.contains(&Action::Lifecycle(Lifecycle::Kill)));
    assert!(actions.contains(&Action::Lifecycle(Lifecycle::Start)));
}

#[test]
fn nothing_checked_offers_nothing() {
    assert!(for_selection(&[], &[], &[], &[]).is_empty());
}

#[test]
fn only_mutations_are_offered_in_bulk_never_the_things_that_open_a_tab() {
    let running = container("web", ContainerState::Running);
    let images = vec![image("nginx:1.27")];

    let actions: Vec<Action> = for_selection(&[&running], &[&images[0]], &[], &images)
        .iter()
        .map(|offer| offer.action)
        .collect();

    for unwanted in [
        Action::ViewLogs,
        Action::ViewDockerfile,
        Action::BrowseFilesystem,
        Action::OpenInFileManager,
    ] {
        assert!(
            !actions.contains(&unwanted),
            "{unwanted:?} opens a tab each"
        );
    }
}

#[test]
fn a_bulk_removal_forces_per_container_rather_than_across_the_whole_selection() {
    let running = container("web", ContainerState::Running);
    let stopped = container("old", ContainerState::Exited);

    let remove = for_selection(&[&running, &stopped], &[], &[], &[])
        .into_iter()
        .find(|offer| matches!(offer.action, Action::RemoveContainer { .. }))
        .expect("removal is offered");

    let force_of = |id: &str| {
        remove
            .targets
            .iter()
            .find(|target| target.id == id)
            .map(|target| target.action)
            .expect("that container is a target")
    };

    assert_eq!(
        force_of(&running.id),
        Action::RemoveContainer { force: true }
    );
    assert_eq!(
        force_of(&stopped.id),
        Action::RemoveContainer { force: false },
        "a stopped container must not be force-removed just because another is running"
    );
}

#[test]
fn a_bulk_removal_names_every_object_and_says_what_is_still_running() {
    let running = container("web", ContainerState::Running);
    let stopped = container("old", ContainerState::Exited);

    let remove = for_selection(&[&stopped, &running], &[], &[], &[])
        .into_iter()
        .find(|offer| matches!(offer.action, Action::RemoveContainer { .. }))
        .expect("removal is offered");
    let confirmation = remove.confirmation.expect("it confirms");

    assert_eq!(
        confirmation.items,
        vec!["old".to_owned(), "web".to_owned()],
        "named and sorted, not counted"
    );
    assert!(
        confirmation.heading.contains('2'),
        "{}",
        confirmation.heading
    );
    assert!(
        confirmation.body.contains("killed first"),
        "{}",
        confirmation.body
    );
}

#[test]
fn removing_only_stopped_containers_does_not_threaten_to_kill_anything() {
    let stopped = container("old", ContainerState::Exited);

    let confirmation = for_selection(&[&stopped], &[], &[], &[])
        .into_iter()
        .find(|offer| matches!(offer.action, Action::RemoveContainer { .. }))
        .and_then(|offer| offer.confirmation)
        .expect("removal confirms");

    assert!(
        !confirmation.body.contains("killed"),
        "{}",
        confirmation.body
    );
}

#[test]
fn images_and_containers_can_be_checked_together_and_each_gets_its_own_removal() {
    let running = container("web", ContainerState::Running);
    let unused = image("alpine:3.20");

    let offers = for_selection(&[&running], &[&unused], &[], std::slice::from_ref(&unused));
    let labels: Vec<&str> = offers.iter().map(|offer| offer.label.as_str()).collect();

    assert!(labels.contains(&"Remove 1 Container"), "{labels:?}");
    assert!(labels.contains(&"Remove 1 Image"), "{labels:?}");
}

#[test]
fn a_bulk_image_removal_reports_what_it_reclaims_and_what_is_in_use() {
    let held = image("nginx:1.27");
    let holder = container("web", ContainerState::Running);

    let confirmation = for_selection(&[], &[&held], &[holder], std::slice::from_ref(&held))
        .into_iter()
        .find(|offer| offer.action == Action::RemoveImage)
        .and_then(|offer| offer.confirmation)
        .expect("removal confirms");

    assert!(
        confirmation.body.contains("52.4 MB"),
        "{}",
        confirmation.body
    );
    assert!(
        confirmation.body.contains("refuse"),
        "{}",
        confirmation.body
    );
    assert_eq!(confirmation.items, vec!["nginx:1.27".to_owned()]);
}

#[test]
fn every_destructive_bulk_offer_confirms_and_every_reversible_one_does_not() {
    let running = container("web", ContainerState::Running);
    let stopped = container("old", ContainerState::Exited);
    let images = vec![image("nginx:1.27")];

    let offers = for_selection(&[&running, &stopped], &[&images[0]], &[], &images);
    assert!(!offers.is_empty(), "the selection should offer something");

    for offer in &offers {
        assert_eq!(
            offer.is_destructive(),
            offer.confirmation.is_some(),
            "{} disagrees with its confirmation",
            offer.label
        );
    }
}

#[test]
fn bulk_actions_are_listed_with_the_disruptive_ones_last() {
    let running = container("web", ContainerState::Running);
    let stopped = container("old", ContainerState::Exited);
    let images = vec![image("nginx:1.27")];

    let offers = for_selection(&[&running, &stopped], &[&images[0]], &[], &images);
    let position = |action: Action| {
        offers
            .iter()
            .position(|offer| offer.action == action)
            .expect("that action is offered")
    };

    assert!(
        position(Action::Lifecycle(Lifecycle::Start))
            < position(Action::Lifecycle(Lifecycle::Stop))
    );
    assert!(
        position(Action::Lifecycle(Lifecycle::Stop))
            < position(Action::Lifecycle(Lifecycle::Kill))
    );
    assert!(
        offers
            .iter()
            .position(BulkOffer::is_destructive)
            .is_some_and(|first| offers[first..].iter().all(BulkOffer::is_destructive)),
        "removals come last, so nothing reversible sits below them"
    );
}

#[test]
fn a_bulk_action_that_worked_says_what_it_did() {
    assert_eq!(
        bulk_outcome(Action::Lifecycle(Lifecycle::Stop), 3, &[]),
        ("Stopped 3 containers".to_owned(), false)
    );
    assert_eq!(
        bulk_outcome(Action::RemoveImage, 1, &[]),
        ("Removed 1 image".to_owned(), false)
    );
}

#[test]
fn a_partly_failed_bulk_action_reports_both_halves_rather_than_rounding() {
    let (message, failed) = bulk_outcome(
        Action::RemoveContainer { force: false },
        2,
        &["web: in use".to_owned()],
    );

    assert!(failed);
    assert!(message.contains("Removed 2 containers"), "{message}");
    assert!(message.contains("web: in use"), "{message}");
}

#[test]
fn a_wholly_failed_bulk_action_does_not_claim_to_have_removed_nothing() {
    let (message, failed) =
        bulk_outcome(Action::RemoveImage, 0, &["nginx: still in use".to_owned()]);

    assert!(failed);
    assert!(
        !message.contains("Removed 0"),
        "\"Removed 0 images\" reads as success: {message}"
    );
    assert!(message.starts_with("Could not remove"), "{message}");
}

#[test]
fn a_long_list_of_failures_is_counted_after_the_first_few() {
    let failures: Vec<String> = (0..10).map(|index| format!("container-{index}")).collect();

    let (message, _) = bulk_outcome(Action::Lifecycle(Lifecycle::Start), 0, &failures);

    assert!(message.contains("container-0"), "{message}");
    assert!(!message.contains("container-9"), "{message}");
    assert!(message.contains("and 7 more"), "{message}");
}

#[test]
fn a_container_being_removed_is_not_offered_removal_again() {
    let offers = for_container(&container("web", ContainerState::Removing), &[]);

    assert!(
        !actions(&offers)
            .iter()
            .any(|action| matches!(action, Action::RemoveContainer { .. }))
    );
}
