use ide_session::message::{EditorMessage, EditorMessageContents};
use ide_session::QUEUE_CAPACITY;
use tokio::sync::mpsc;
use tokio::sync::mpsc::error::TrySendError;

#[test]
fn full_queue_holds_back_the_eleventh_message() {
    assert_eq!(QUEUE_CAPACITY, 10);
    let (tx, mut rx) = mpsc::channel::<EditorMessage>(QUEUE_CAPACITY);
    for id in 0..10u64 {
        assert!(tx
            .try_send(EditorMessage::new(id, EditorMessageContents::Closed))
            .is_ok());
    }
    let eleventh = tx.try_send(EditorMessage::new(10, EditorMessageContents::Closed));
    assert!(matches!(eleventh, Err(TrySendError::Full(_))));
    let first = rx.try_recv().unwrap();
    assert_eq!(first.id, 0);
    assert!(tx
        .try_send(EditorMessage::new(10, EditorMessageContents::Closed))
        .is_ok());
    for id in 1..=10u64 {
        assert_eq!(rx.try_recv().unwrap().id, id);
    }
}
