use pagewatch::metrics::{format_metrics_line, MetricsBuffer, FLUSH_THRESHOLD};
use pagewatch::scoped_timer::{elapsed_between, ScopedTimer};

#[test]
fn test_format_metrics_line() {
    assert_eq!(format_metrics_line(5, "some-uri", "OK"), "5,inc_req,some-uri,OK");
    assert_eq!(format_metrics_line(0, "u", "404"), "0,inc_req,u,404");
}

#[test]
fn test_metrics_buffer_holds_small_lines() {
    let mut buffer = MetricsBuffer::new();
    assert_eq!(buffer.push_line("one"), None);
    assert_eq!(buffer.push_line("two"), None);
    assert_eq!(buffer.take_rest(), b"one\ntwo\n".to_vec());
    // After the teardown handover nothing is left.
    assert_eq!(buffer.take_rest(), Vec::<u8>::new());
}

#[test]
fn test_metrics_buffer_flushes_past_threshold() {
    let mut buffer = MetricsBuffer::new();
    let long_line = "x".repeat(FLUSH_THRESHOLD + 10);
    let flushed = buffer.push_line(&long_line).unwrap();
    // The flush carries every byte accepted so far, record plus newline.
    assert_eq!(flushed.len(), FLUSH_THRESHOLD + 11);
    assert_eq!(flushed, format!("{}\n", long_line).into_bytes());
    assert_eq!(buffer.take_rest(), Vec::<u8>::new());
}

#[test]
fn test_metrics_buffer_loses_nothing() {
    let mut buffer = MetricsBuffer::new();
    let mut written: Vec<u8> = vec![];
    let mut accepted: Vec<u8> = vec![];
    for i in 0..100u32 {
        let line = format!("record-{}", i);
        accepted.extend_from_slice(line.as_bytes());
        accepted.push(b'\n');
        if let Some(batch) = buffer.push_line(&line) {
            written.extend_from_slice(&batch);
        }
    }
    written.extend_from_slice(&buffer.take_rest());
    // Every accepted byte reaches the writer exactly once, in order.
    assert_eq!(written, accepted);
}

#[test]
fn test_elapsed_between() {
    assert_eq!(elapsed_between(5, 9), 4);
    assert_eq!(elapsed_between(9, 5), 0);
    assert_eq!(elapsed_between(7, 7), 0);
}

#[test]
fn test_scoped_timer_record() {
    let timer = ScopedTimer::new("scrape timer".to_string());
    assert_eq!(timer.record_line(7), "timer[scrape timer],7ms");
    assert!(timer.elapsed_millis() < 1000 * 60);
}
