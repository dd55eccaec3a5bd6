use spex::chunk::{chunks_bytes, Chunk};
use spex::cli::Cmd;
use spex::config::Config;
use spex::metadata::FileMeta;
use spex::protocol::NetMessage;
use spex::reassemble::ReassembleError;
use spex::receiver::{
    all_attempts_exhausted, receiver_step, try_reassemble, PendingChunk, ReceiverOutcome, ReceiverState,
};
use spex::sender::{chunk_message, prepare_transfer, respond, send_order};

fn cfg(retry_after_ms: u64, max_retries: u32) -> Config {
    Config { chunk_size: 3, send_delay_ms: 0, retry_after_ms, max_retries, idle_timeout_ms: 1_000 }
}

fn meta_of(data: &[u8], chunk_size: usize) -> FileMeta {
    FileMeta::new(data, chunk_size, &chunks_bytes(data, chunk_size))
}

#[test]
fn config_defaults() {
    let c = Config::default();
    assert_eq!(c.chunk_size, 1024);
    assert_eq!(c.send_delay_ms, 50);
    assert_eq!(c.retry_after_ms, 200);
    assert_eq!(c.max_retries, 5);
    assert_eq!(c.idle_timeout_ms, 5_000);
}

#[test]
fn command_names() {
    let send = Cmd::Send {
        bind: "127.0.0.1:7001".to_string(),
        peer: "127.0.0.1:7002".to_string(),
        file: "in.bin".to_string(),
        chunk_size: 1024,
        delay_ms: 50,
    };
    let recv = Cmd::Recv {
        bind: "127.0.0.1:7002".to_string(),
        peer: "127.0.0.1:7001".to_string(),
        out: "out.bin".to_string(),
    };
    assert_eq!(send.name(), "send");
    assert_eq!(recv.name(), "recv");
}

#[test]
fn new_receiver_knows_nothing() {
    let s = ReceiverState::new();
    assert!(s.meta.is_none());
    assert!(s.chunks.is_empty());
    assert!(s.pending.is_empty());
    let d = ReceiverState::default();
    assert!(d.meta.is_none() && d.chunks.is_empty() && d.pending.is_empty());
    let p = PendingChunk::default();
    assert!(p.last_request.is_none());
    assert_eq!(p.attempts, 0);
}

#[test]
fn messages_update_receiver_state() {
    let mut s = ReceiverState::new();
    s.pending.insert(1, PendingChunk { last_request: Some(5), attempts: 2 });
    s.apply_message(NetMessage::Chunk(Chunk { index: 1, data: b"lo ".to_vec() }));
    assert!(s.pending.get(&1).is_none());
    assert_eq!(s.chunks.get(&1).unwrap().data, b"lo ");
    s.apply_message(NetMessage::RequestChunk { index: 0 });
    assert_eq!(s.chunks.len(), 1);
    s.apply_message(NetMessage::FileMeta(meta_of(b"hello world", 3)));
    assert_eq!(s.meta.as_ref().unwrap().total_chunks, 4);
}

#[test]
fn requests_missing_chunks_with_backoff() {
    let mut s = ReceiverState::new();
    let c = cfg(100, 3);
    assert!(s.request_missing(0, &c).is_empty());
    s.meta = Some(meta_of(b"hello world", 3));
    s.chunks.insert(1, Chunk { index: 1, data: b"lo ".to_vec() });

    let first = s.request_missing(1_000_000_000, &c);
    assert_eq!(first, vec![0, 2, 3]);
    assert_eq!(s.pending.len(), 3);
    assert_eq!(s.pending.get(&0).unwrap().attempts, 1);
    assert_eq!(s.pending.get(&0).unwrap().last_request, Some(1_000_000_000));

    // Backoff after one attempt is 100 ms * 2 = 200 ms, counted in nanoseconds.
    assert!(s.request_missing(1_199_999_999, &c).is_empty());
    let second = s.request_missing(1_200_000_000, &c);
    assert_eq!(second, vec![0, 2, 3]);
    assert_eq!(s.pending.get(&2).unwrap().attempts, 2);

    // A clock that goes backwards counts as no time passed.
    assert!(s.request_missing(10, &c).is_empty());
}

#[test]
fn requests_stop_at_max_retries() {
    let mut s = ReceiverState::new();
    let c = cfg(0, 2);
    s.meta = Some(meta_of(b"abcdef", 3));
    assert_eq!(s.request_missing(0, &c), vec![0, 1]);
    assert_eq!(s.request_missing(0, &c), vec![0, 1]);
    assert!(s.request_missing(0, &c).is_empty());
    assert_eq!(s.pending.get(&1).unwrap().attempts, 2);
    assert!(all_attempts_exhausted(&s, &c));
}

#[test]
fn backoff_doubles_at_most_five_times() {
    let mut s = ReceiverState::new();
    let c = cfg(1, 100);
    s.meta = Some(meta_of(b"a", 3));
    s.pending.insert(0, PendingChunk { last_request: Some(0), attempts: 9 });
    assert!(s.request_missing(31_999_999, &c).is_empty());
    assert_eq!(s.request_missing(32_000_000, &c), vec![0]);
    assert_eq!(s.pending.get(&0).unwrap().attempts, 10);
}

#[test]
fn exhaustion_needs_metadata_and_outstanding_chunks() {
    let c = cfg(0, 1);
    let mut s = ReceiverState::new();
    assert!(!all_attempts_exhausted(&s, &c));
    s.meta = Some(meta_of(b"abcdef", 3));
    assert!(!all_attempts_exhausted(&s, &c));
    s.pending.insert(0, PendingChunk { last_request: Some(0), attempts: 1 });
    assert!(!all_attempts_exhausted(&s, &c));
    s.pending.insert(1, PendingChunk { last_request: Some(0), attempts: 4 });
    assert!(all_attempts_exhausted(&s, &c));
    s.chunks.insert(0, Chunk { index: 0, data: b"abc".to_vec() });
    s.chunks.insert(1, Chunk { index: 1, data: b"def".to_vec() });
    assert!(!all_attempts_exhausted(&s, &c));
}

#[test]
fn try_reassemble_waits_then_finishes() {
    let data = b"hello world";
    let mut s = ReceiverState::new();
    assert_eq!(try_reassemble(&s), Ok(None));
    s.meta = Some(meta_of(data, 3));
    for c in chunks_bytes(data, 3) {
        assert_eq!(try_reassemble(&s), Ok(None));
        s.chunks.insert(c.index, c);
    }
    assert_eq!(try_reassemble(&s), Ok(Some(data.to_vec())));
}

#[test]
fn try_reassemble_reports_corruption_and_gaps() {
    let data = b"hello world";
    let mut s = ReceiverState::new();
    s.meta = Some(meta_of(data, 3));
    for c in chunks_bytes(b"jello world", 3) {
        s.chunks.insert(c.index, c);
    }
    assert_eq!(try_reassemble(&s), Err(ReassembleError::FileHashMismatch));
    s.chunks.remove(&2);
    s.chunks.insert(9, Chunk { index: 9, data: b"zz".to_vec() });
    assert_eq!(try_reassemble(&s), Err(ReassembleError::MissingChunk { expected: 2, found: 3 }));
}

#[test]
fn receiver_steps_through_a_transfer() {
    let data = b"hello world";
    let c = cfg(50, 5);
    let mut s = ReceiverState::new();
    let step = receiver_step(&mut s, NetMessage::FileMeta(meta_of(data, 3)), 0, &c);
    assert_eq!(step.requests, vec![0, 1, 2, 3]);
    assert!(matches!(step.outcome, ReceiverOutcome::Continue));
    let chunks = chunks_bytes(data, 3);
    let mut last = None;
    for (i, ch) in chunks.into_iter().rev().enumerate() {
        let step = receiver_step(&mut s, NetMessage::Chunk(ch), 10 + i as u64, &c);
        assert!(step.requests.is_empty());
        last = Some(step.outcome);
    }
    match last.unwrap() {
        ReceiverOutcome::Finished(bytes) => assert_eq!(bytes, data),
        other => panic!("unexpected outcome {:?}", other),
    }
}

#[test]
fn receiver_gives_up_when_retries_run_out() {
    let c = cfg(0, 1);
    let mut s = ReceiverState::new();
    let step = receiver_step(&mut s, NetMessage::FileMeta(meta_of(b"abcdef", 3)), 0, &c);
    assert_eq!(step.requests, vec![0, 1]);
    assert!(matches!(step.outcome, ReceiverOutcome::RetriesExhausted));
}

#[test]
fn receiver_step_reports_failed_verification() {
    let c = cfg(0, 5);
    let mut s = ReceiverState::new();
    receiver_step(&mut s, NetMessage::FileMeta(meta_of(b"abc", 3)), 0, &c);
    let step = receiver_step(&mut s, NetMessage::Chunk(Chunk { index: 0, data: b"abd".to_vec() }), 1, &c);
    assert!(matches!(step.outcome, ReceiverOutcome::Failed(ReassembleError::FileHashMismatch)));
}

#[test]
fn sender_prepares_chunks_and_metadata() {
    let data = b"hello spex";
    let store = prepare_transfer(data, &cfg(0, 1));
    assert_eq!(store.meta.total_chunks, 4);
    assert_eq!(store.meta.file_size, 10);
    assert_eq!(store.meta.chunk_size, 3);
    assert!(store.meta.file_hash == spex::hash::hash_bytes(data));
    assert_eq!(store.chunk_store.len(), 4);
    assert_eq!(store.chunk_store.get(&3).unwrap().data, b"x");
}

#[test]
fn send_order_is_a_permutation() {
    let mut order = send_order(50);
    assert_eq!(order.len(), 50);
    order.sort();
    assert_eq!(order, (0..50).collect::<Vec<u64>>());
    assert!(send_order(0).is_empty());
}

#[test]
fn sender_answers_requests_only() {
    let store = prepare_transfer(b"hello spex", &cfg(0, 1));
    match respond(&store, &NetMessage::RequestChunk { index: 1 }) {
        Some(NetMessage::Chunk(c)) => {
            assert_eq!(c.index, 1);
            assert_eq!(c.data, b"lo ");
        }
        other => panic!("unexpected reply {:?}", other),
    }
    assert!(respond(&store, &NetMessage::RequestChunk { index: 4 }).is_none());
    assert!(respond(&store, &NetMessage::Chunk(Chunk { index: 0, data: vec![] })).is_none());
    assert!(chunk_message(&store, 7).is_none());
    assert!(matches!(chunk_message(&store, 0), Some(NetMessage::Chunk(Chunk { index: 0, .. }))));
}

#[test]
fn receiver_rebuilds_what_sender_prepared() {
    let data: Vec<u8> = (0u8..=255).cycle().take(8 * 1024).collect();
    let c = Config { chunk_size: 256, ..cfg(50, 5) };
    let store = prepare_transfer(&data, &c);
    let mut s = ReceiverState::new();
    receiver_step(&mut s, NetMessage::FileMeta(store.meta.clone()), 0, &c);
    let mut outcome = None;
    for index in send_order(store.meta.total_chunks) {
        let msg = chunk_message(&store, index).expect("chunk in store");
        outcome = Some(receiver_step(&mut s, msg, 1, &c).outcome);
    }
    match outcome.unwrap() {
        ReceiverOutcome::Finished(bytes) => assert_eq!(bytes, data),
        other => panic!("unexpected outcome {:?}", other),
    }
}

#[test]
fn send_order_is_shuffled() {
    let identity: Vec<u64> = (0..64).collect();
    let shuffled = (0..5).map(|_| send_order(64)).any(|o| o != identity);
    assert!(shuffled);
}
