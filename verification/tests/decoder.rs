use shufflepic::decoder::{
    resolve_worker_count, DecodeOutcome, DecodeRequest, DecoderPool, SendRejected,
};
use shufflepic::image_loader::{decode_color, DecodeError, FileFingerprint};

fn request(path: &str, epoch: u64) -> DecodeRequest {
    DecodeRequest {
        path: path.to_string(),
        epoch,
        fingerprint: Some(FileFingerprint { len: 7, modified: None }),
    }
}

#[test]
fn worker_count_is_the_one_asked_for() {
    assert_eq!(resolve_worker_count(9, Some(2)), 9);
    assert_eq!(resolve_worker_count(1, None), 1);
}

#[test]
fn worker_count_leaves_a_core() {
    assert_eq!(resolve_worker_count(0, None), 1);
    assert_eq!(resolve_worker_count(0, Some(1)), 1);
    assert_eq!(resolve_worker_count(0, Some(2)), 1);
    assert_eq!(resolve_worker_count(0, Some(4)), 3);
    assert_eq!(resolve_worker_count(0, Some(5)), 4);
    assert_eq!(resolve_worker_count(0, Some(64)), 4);
}

#[test]
fn requests_go_to_their_queues() {
    let (mut pool, workers) = DecoderPool::new();
    assert!(pool.request_display(request("a", 1)).is_ok());
    assert!(pool.request_prefetch(request("b", 2)).is_ok());
    let first = workers.rx_priority.try_recv().unwrap();
    assert_eq!(first.path, "a");
    assert_eq!(first.epoch, 1);
    assert_eq!(first.fingerprint, Some(FileFingerprint { len: 7, modified: None }));
    let second = workers.rx_prefetch.try_recv().unwrap();
    assert_eq!(second.path, "b");
    assert!(workers.rx_priority.try_recv().is_err());
    assert!(workers.rx_prefetch.try_recv().is_err());
}

#[test]
fn full_queues_hand_the_request_back() {
    let (mut pool, _workers) = DecoderPool::new();
    for i in 0..2 {
        assert!(pool.request_display(request(&format!("d{i}"), 0)).is_ok());
    }
    match pool.request_display(request("late", 4)) {
        Err(SendRejected::Full(back)) => {
            assert_eq!(back.path, "late");
            assert_eq!(back.epoch, 4);
        }
        _ => panic!("the queue holds two"),
    }
    for i in 0..6 {
        assert!(pool.request_prefetch(request(&format!("p{i}"), 0)).is_ok());
    }
    assert!(matches!(pool.request_prefetch(request("late", 0)), Err(SendRejected::Full(_))));
}

#[test]
fn closed_pool_takes_and_gives_nothing() {
    let (mut pool, workers) = DecoderPool::new();
    pool.close();
    assert!(matches!(
        pool.request_display(request("a", 0)),
        Err(SendRejected::Disconnected(back)) if back.path == "a"
    ));
    assert!(matches!(
        pool.request_prefetch(request("b", 0)),
        Err(SendRejected::Disconnected(back)) if back.path == "b"
    ));
    assert!(pool.try_recv().is_none());
    assert!(workers.rx_priority.recv().is_err(), "the workers see the end");
    assert!(workers.tx_res.send(request("c", 0).answer(DecodeOutcome::Failed)).is_err());
}

#[test]
fn pool_without_workers_rejects() {
    let (mut pool, workers) = DecoderPool::new();
    drop(workers);
    assert!(matches!(
        pool.request_display(request("a", 0)),
        Err(SendRejected::Disconnected(_))
    ));
    assert!(pool.try_recv().is_none());
}

#[test]
fn results_come_back_in_order() {
    let (mut pool, workers) = DecoderPool::new();
    assert!(pool.try_recv().is_none());
    assert!(workers.tx_res.send(request("a", 3).answer(DecodeOutcome::Missing)).is_ok());
    assert!(workers.tx_res.send(request("b", 3).answer(DecodeOutcome::Failed)).is_ok());
    let first = pool.try_recv().unwrap();
    assert_eq!(first.path, "a");
    assert_eq!(first.epoch, 3);
    assert_eq!(first.fingerprint, Some(FileFingerprint { len: 7, modified: None }));
    assert!(matches!(first.outcome, DecodeOutcome::Missing));
    assert_eq!(pool.try_recv().unwrap().path, "b");
    assert!(pool.try_recv().is_none());
}

#[test]
fn result_queue_holds_eight() {
    let (_pool, workers) = DecoderPool::new();
    for i in 0..8 {
        let result = request(&format!("{i}"), 0).answer(DecodeOutcome::Failed);
        assert!(workers.tx_res.try_send(result).is_ok());
    }
    assert!(workers.tx_res.try_send(request("late", 0).answer(DecodeOutcome::Failed)).is_err());
}

#[test]
fn old_requests_are_not_current() {
    let (mut pool, workers) = DecoderPool::new();
    pool.set_epoch(41);
    let announced = workers.current_epoch.load(std::sync::atomic::Ordering::SeqCst);
    assert_eq!(announced, 41);
    assert!(request("a", 41).is_current(announced));
    assert!(!request("a", 40).is_current(announced));
}

#[test]
fn outcomes_stand_for_attempts() {
    assert!(matches!(DecodeOutcome::from(Err(DecodeError::Missing)), DecodeOutcome::Missing));
    assert!(matches!(DecodeOutcome::from(Err(DecodeError::Failed)), DecodeOutcome::Failed));
    assert!(matches!(
        DecodeOutcome::from(Err(DecodeError::Oversized { w: 3, h: 4 })),
        DecodeOutcome::Oversized { w: 3, h: 4 }
    ));
    assert!(matches!(
        DecodeOutcome::from(decode_color("a.png", None, None, false)),
        DecodeOutcome::Missing
    ));
}

#[test]
fn workers_have_the_other_ends() {
    let (mut first, first_workers) = DecoderPool::new();
    let (mut second, second_workers) = DecoderPool::new();
    first.set_epoch(3);
    second.set_epoch(4);
    assert!(first.request_display(request("a", 3)).is_ok());
    assert!(second.request_prefetch(request("b", 4)).is_ok());
    let order = std::sync::atomic::Ordering::SeqCst;
    assert_eq!(first_workers.current_epoch.load(order), 3);
    assert_eq!(second_workers.current_epoch.load(order), 4);
    assert!(second_workers.rx_priority.try_recv().is_err());
    assert_eq!(first_workers.rx_priority.try_recv().unwrap().path, "a");
    assert_eq!(second_workers.rx_prefetch.try_recv().unwrap().path, "b");
    assert!(first_workers.tx_res.send(request("a", 3).answer(DecodeOutcome::Failed)).is_ok());
    assert!(second.try_recv().is_none());
    assert_eq!(first.try_recv().unwrap().path, "a");
}
