use lave_core::engine::{ContainerSummary, SCRATCH_LABEL, scratch_strays};
use lave_core::ordered::TextMap;

#[test]
fn only_our_own_labelled_containers_count_as_strays() {
    let mut labels = TextMap::new();
    labels.insert(SCRATCH_LABEL.to_owned(), "1".to_owned());

    let ours = ContainerSummary {
        id: "ours".to_owned(),
        labels,
        ..ContainerSummary::default()
    };
    // Same image, same shape, no label: emphatically not ours to remove.
    let theirs = ContainerSummary {
        id: "theirs".to_owned(),
        ..ContainerSummary::default()
    };

    let containers = [ours, theirs];
    let strays = scratch_strays(&containers);

    assert_eq!(strays.len(), 1);
    assert_eq!(strays[0].id, "ours");
}
