use morsel_sink::completion::CompletionOutcome;
use morsel_sink::linearizer::Linearizer;
use morsel_sink::linearizer::LinearizerPoll;
use morsel_sink::morsel::EncodedChunk;
use morsel_sink::sink_node::NDJsonSinkNode;
use morsel_sink::timer::NodeTimer;
use morsel_sink::timer::TimerError;
use morsel_sink::worker::EncodeWorker;
use morsel_sink::worker::DEFAULT_ALLOCATION_SIZE;

fn chunk(seq: u64, byte: u8) -> EncodedChunk {
    EncodedChunk { seq, bytes: vec![byte] }
}

#[test]
fn linearizer_reorders_across_producers() {
    let mut lin = Linearizer::new(2, 4);
    // producer 0 delivers sequence 1 before producer 1 delivers sequence 0
    lin.insert(0, chunk(1, b'b'));
    match lin.poll() {
        LinearizerPoll::Pending => {}
        _ => panic!("sequence 0 has not arrived yet"),
    }
    lin.insert(1, chunk(0, b'a'));
    match lin.poll() {
        LinearizerPoll::Ready(c) => {
            assert_eq!(c.seq, 0);
            assert_eq!(c.bytes, vec![b'a']);
        }
        _ => panic!("sequence 0 is available"),
    }
    match lin.poll() {
        LinearizerPoll::Ready(c) => assert_eq!(c.seq, 1),
        _ => panic!("sequence 1 is available"),
    }
    // drained but producers still connected: the consumer would suspend
    match lin.poll() {
        LinearizerPoll::Pending => {}
        _ => panic!("producers are still connected"),
    }
    lin.close(0);
    lin.close(1);
    match lin.poll() {
        LinearizerPoll::Finished => {}
        _ => panic!("all producers completed and the buffers are empty"),
    }
}

#[test]
fn linearizer_reports_room() {
    let mut lin = Linearizer::new(1, 2);
    assert!(lin.has_room(0));
    lin.insert(0, chunk(0, b'x'));
    assert!(lin.has_room(0));
    lin.insert(0, chunk(1, b'y'));
    assert!(!lin.has_room(0));
}

#[test]
fn buffer_estimate_never_decreases() {
    let mut sizer = EncodeWorker::new();
    assert_eq!(sizer.allocation_size, DEFAULT_ALLOCATION_SIZE);
    let small = vec![7u8; 16];
    let c = sizer.encode_into_chunk(0, &small);
    assert_eq!(c.seq, 0);
    assert_eq!(c.bytes, small);
    assert_eq!(sizer.allocation_size, DEFAULT_ALLOCATION_SIZE);
    let big = vec![1u8; DEFAULT_ALLOCATION_SIZE + 1];
    sizer.encode_into_chunk(1, &big);
    assert_eq!(sizer.allocation_size, DEFAULT_ALLOCATION_SIZE + 1);
    // a small chunk afterwards does not shrink the estimate
    sizer.encode_into_chunk(2, &small);
    assert_eq!(sizer.allocation_size, DEFAULT_ALLOCATION_SIZE + 1);
}

#[test]
fn completion_outcome_fires_once() {
    let mut outcome = CompletionOutcome::new();
    assert!(!outcome.fired);
    outcome.stopped();
    assert!(outcome.fired);
}

#[test]
fn sink_node_capabilities() {
    let node = NDJsonSinkNode::new(String::from("out/results.ndjson"));
    assert_eq!(node.name(), "ndjson_sink");
    assert!(node.is_sink_input_parallel());
    assert_eq!(node.path, "out/results.ndjson");
}

#[test]
fn timer_report_is_sorted_with_an_optimization_row() {
    let mut timer = NodeTimer::new(0);
    timer.store_duration(40, 50, String::from("sink"));
    timer.store_duration(10, 35, String::from("scan"));
    timer.store_duration(20, 30, String::from("select"));
    let rows = timer.finish().unwrap();
    let summary: Vec<(&str, u64, u64)> =
        rows.iter().map(|r| (r.node.as_str(), r.start, r.end)).collect();
    // the appended row covers the optimization phase: from tick zero to
    // the first recorded start
    assert_eq!(
        summary,
        vec![
            ("optimization", 0, 40),
            ("scan", 10, 35),
            ("select", 20, 30),
            ("sink", 40, 50),
        ]
    );
}

#[test]
fn timer_with_no_data_cannot_report() {
    let timer = NodeTimer::new(0);
    assert_eq!(timer.finish().unwrap_err(), TimerError::NoData);
}

#[test]
fn timer_records_relative_ticks() {
    let mut timer = NodeTimer::new(100);
    timer.store(150, 175, String::from("scan"));
    timer.store_duration(80, 90, String::from("join"));
    // an instant before the query start saturates to zero
    timer.store(60, 130, String::from("early"));
    assert_eq!(timer.nodes, vec!["scan", "join", "early"]);
    assert_eq!(timer.ticks, vec![(50, 75), (80, 90), (0, 30)]);
}
