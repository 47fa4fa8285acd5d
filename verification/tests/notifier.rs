use compositing::ids::DocumentId;
use compositing::notifier::MyRenderNotifier;

fn doc(id: u32) -> DocumentId {
    DocumentId {
        namespace_id: 0,
        id,
    }
}

#[test]
fn test_notifier_drains_in_arrival_order() {
    let mut notifier = MyRenderNotifier::new();
    assert!(notifier.get().is_empty());
    notifier.new_frame_ready(doc(1), true);
    notifier.new_frame_ready(doc(2), false);
    notifier.new_frame_ready(doc(1), true);
    let drained = notifier.get();
    assert_eq!(drained, vec![(doc(1), true), (doc(2), false), (doc(1), true)]);
    // Draining empties the buffer; later events queue afresh.
    assert!(notifier.get().is_empty());
    notifier.new_frame_ready(doc(3), true);
    assert_eq!(notifier.get(), vec![(doc(3), true)]);
}
