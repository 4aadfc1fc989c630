use fdupe::closer::{deferred_file_drop, stop_file_closer_thread, CloserAction, CloserEvent, FileCloser};

#[test]
fn first_handle_starts_the_worker_and_is_enqueued() {
    let mut closer = FileCloser::new();
    assert!(!closer.attached);
    assert_eq!(deferred_file_drop(&mut closer, None), CloserAction::StartWorker);
    assert!(!closer.attached);
    assert_eq!(deferred_file_drop(&mut closer, Some(CloserEvent::Started)), CloserAction::Enqueue);
    assert!(closer.attached);
    assert_eq!(deferred_file_drop(&mut closer, Some(CloserEvent::Enqueued)), CloserAction::Done);
    assert!(closer.attached);
}

#[test]
fn later_handles_use_the_worker_that_is_there() {
    let mut closer = FileCloser { attached: true };
    assert_eq!(deferred_file_drop(&mut closer, None), CloserAction::Enqueue);
    assert_eq!(deferred_file_drop(&mut closer, Some(CloserEvent::Enqueued)), CloserAction::Done);
    assert!(closer.attached);
}

#[test]
fn a_refused_handle_gets_a_new_worker() {
    let mut closer = FileCloser { attached: true };
    assert_eq!(deferred_file_drop(&mut closer, None), CloserAction::Enqueue);
    assert_eq!(deferred_file_drop(&mut closer, Some(CloserEvent::Refused)), CloserAction::StartWorker);
    assert!(!closer.attached);
    assert_eq!(deferred_file_drop(&mut closer, Some(CloserEvent::Started)), CloserAction::Enqueue);
    assert_eq!(deferred_file_drop(&mut closer, Some(CloserEvent::Enqueued)), CloserAction::Done);
    assert!(closer.attached);
}

#[test]
fn stop_detaches_and_the_next_handle_starts_anew() {
    let mut closer = FileCloser { attached: true };
    stop_file_closer_thread(&mut closer);
    assert!(!closer.attached);
    stop_file_closer_thread(&mut closer);
    assert!(!closer.attached);
    assert_eq!(deferred_file_drop(&mut closer, None), CloserAction::StartWorker);
}
