use morsel_sink::morsel::EncodeError;
use morsel_sink::morsel::SinkError;
use morsel_sink::morsel::Unit;
use morsel_sink::pipeline::run_sink;
use morsel_sink::pipeline::Pipeline;

fn ok_unit(seq: u64) -> Unit {
    Unit { seq, encoded: Ok(payload(seq)) }
}

fn bad_unit(seq: u64, code: u64) -> Unit {
    Unit { seq, encoded: Err(EncodeError { code }) }
}

fn payload(seq: u64) -> Vec<u8> {
    vec![b'{', b'0' + (seq as u8), b'}', b'\n']
}

fn ordered_payloads(upto: u64) -> Vec<u8> {
    let mut out = Vec::new();
    for s in 0..upto {
        out.extend_from_slice(&payload(s));
    }
    out
}

/// Three workers each producing two units, with sequences {0,3}, {1,4},
/// {2,5}: the commit task writes 0,1,2,3,4,5 whichever worker runs first.
#[test]
fn three_workers_interleaved_sequences() {
    let schedules: Vec<Vec<usize>> = vec![
        vec![],
        vec![0, 0, 1, 1, 2, 2, 3, 3, 3],
        vec![2, 2, 2, 2, 1, 1, 3, 0, 3, 3],
        vec![3, 3, 3, 2, 1, 0, 3, 2, 1, 0, 3],
    ];
    for schedule in &schedules {
        let inputs = vec![
            vec![ok_unit(0), ok_unit(3)],
            vec![ok_unit(1), ok_unit(4)],
            vec![ok_unit(2), ok_unit(5)],
        ];
        let p = run_sink(&inputs, 2, schedule);
        assert_eq!(p.written, ordered_payloads(6));
        assert!(p.error.is_none());
        assert!(p.finished);
    }
}

/// The committed bytes equal the one-by-one encoding in sequence order,
/// for every schedule tried: the run is deterministic under scheduling.
#[test]
fn output_is_schedule_independent() {
    let mut outputs: Vec<Vec<u8>> = Vec::new();
    let schedules: Vec<Vec<usize>> = vec![
        vec![0, 1, 0, 1, 2, 2, 2],
        vec![1, 1, 1, 2, 0, 0],
        vec![2, 9, 9, 1, 0, 9, 1, 0],
    ];
    for schedule in &schedules {
        let inputs = vec![vec![ok_unit(1), ok_unit(2)], vec![ok_unit(0), ok_unit(3)]];
        let p = run_sink(&inputs, 1, schedule);
        outputs.push(p.written);
    }
    assert_eq!(outputs[0], ordered_payloads(4));
    assert_eq!(outputs[0], outputs[1]);
    assert_eq!(outputs[0], outputs[2]);
}

/// A partition that never receives a unit must not hold up the others.
#[test]
fn empty_partition_among_busy_ones() {
    let inputs = vec![vec![], vec![ok_unit(0), ok_unit(1), ok_unit(2)], vec![]];
    let p = run_sink(&inputs, 1, &vec![1, 3, 1, 3]);
    assert_eq!(p.written, ordered_payloads(3));
    assert!(p.error.is_none());
    assert!(p.finished);
}

/// A single worker already gives ordered output through the same plumbing.
#[test]
fn single_worker_pipeline() {
    let inputs = vec![vec![ok_unit(0), ok_unit(1), ok_unit(2), ok_unit(3)]];
    let p = run_sink(&inputs, 8, &vec![]);
    assert_eq!(p.written, ordered_payloads(4));
    assert!(p.error.is_none());
}

/// Closing the upstream source with zero pending units terminates every
/// task, fires every completion handshake, and writes zero bytes.
#[test]
fn clean_shutdown_with_no_units() {
    let inputs: Vec<Vec<Unit>> = vec![vec![], vec![], vec![]];
    let p = run_sink(&inputs, 4, &vec![]);
    assert!(p.written.is_empty());
    assert!(p.error.is_none());
    assert!(p.finished);
    assert!(p.sink_outcome.fired);
    for w in &p.workers {
        assert!(w.done);
        assert!(w.outcome.fired);
        assert!(w.pending.is_none());
    }
    for q in &p.lin.queues {
        assert!(q.is_empty());
    }
}

/// If the encoder fails on the unit with sequence k, exactly the bytes of
/// the units before k are written, in order, and that error is surfaced.
#[test]
fn fatal_encode_error_cuts_the_output_at_the_failure() {
    let inputs = vec![
        vec![ok_unit(0), ok_unit(3)],
        vec![ok_unit(1), bad_unit(4, 17)],
        vec![ok_unit(2), ok_unit(5)],
    ];
    let p = run_sink(&inputs, 2, &vec![]);
    assert_eq!(p.written, ordered_payloads(4));
    assert_eq!(p.error, Some(SinkError::Encode { seq: 4, cause: EncodeError { code: 17 } }));
}

#[test]
fn encode_error_on_the_first_unit_writes_nothing() {
    let inputs = vec![vec![bad_unit(0, 1)], vec![ok_unit(1)]];
    let p = run_sink(&inputs, 3, &vec![]);
    assert!(p.written.is_empty());
    assert_eq!(p.error, Some(SinkError::Encode { seq: 0, cause: EncodeError { code: 1 } }));
}

/// With several failing units, the least failing sequence is the one
/// surfaced, and the output stops before it.
#[test]
fn least_failing_sequence_wins() {
    let inputs = vec![vec![ok_unit(0), bad_unit(2, 9)], vec![bad_unit(1, 5)]];
    // drive the second worker late so the larger failure is seen first
    let p = run_sink(&inputs, 2, &vec![0, 0, 3, 0, 3, 1]);
    assert_eq!(p.written, ordered_payloads(1));
    assert_eq!(p.error, Some(SinkError::Encode { seq: 1, cause: EncodeError { code: 5 } }));
}

/// A stalled commit task stalls the workers: with buffer capacity C, at
/// most C chunks per worker are ever buffered and each worker holds at
/// most one undropped admission token, however often it is scheduled.
#[test]
fn backpressure_bounds_buffered_chunks() {
    let inputs = vec![vec![ok_unit(0), ok_unit(1), ok_unit(2), ok_unit(3)]];
    let mut p = Pipeline::new(&inputs, 1);
    // the commit task never runs; the worker soon stops making progress
    let mut steps = 0;
    while p.step_worker(0, &inputs) {
        steps += 1;
        assert!(p.lin.queues[0].len() <= 1);
    }
    // one chunk buffered, one encoded chunk still holding its token
    assert_eq!(p.lin.queues[0].len(), 1);
    assert!(p.workers[0].pending.is_some());
    assert!(!p.workers[0].done);
    assert_eq!(steps, 3);
    // once the commit task drains, the worker moves again
    assert!(p.step_commit(&inputs));
    assert!(p.step_worker(0, &inputs));
}

/// Units keep flowing once the consumer drains the buffer, and the sink
/// completes.
#[test]
fn stalled_worker_resumes_after_drain() {
    let inputs = vec![vec![ok_unit(0), ok_unit(1)]];
    let mut p = Pipeline::new(&inputs, 1);
    loop {
        let a = p.step_worker(0, &inputs);
        let b = p.step_commit(&inputs);
        if !a && !b {
            break;
        }
    }
    assert_eq!(p.written, ordered_payloads(2));
    assert!(p.finished);
}
