use tuning_link::telemetry::TelemetryBuffer;
use tuning_link::value::Value;

fn val(mantissa: u64) -> Value {
    Value { negative: false, mantissa, scale: 0 }
}

#[test]
fn one_hundred_one_samples_leave_the_second_one_first() {
    let mut buffer = TelemetryBuffer::new(100);
    for i in 1..=101u64 {
        assert!(buffer.has_timestamp_headroom());
        buffer.push(val(i));
    }
    assert_eq!(buffer.len(), 100);
    let first = buffer.get(0);
    assert_eq!(first.timestamp, 2);
    assert_eq!(first.value, val(2));
    let last = buffer.get(99);
    assert_eq!(last.timestamp, 101);
    assert_eq!(last.value, val(101));
}

#[test]
fn length_never_exceeds_capacity() {
    let mut buffer = TelemetryBuffer::new(3);
    for i in 1..=10u64 {
        buffer.push(val(i));
        assert!(buffer.len() <= 3);
    }
    assert_eq!(buffer.len(), 3);
}

#[test]
fn full_buffer_evicts_oldest_first() {
    let mut buffer = TelemetryBuffer::new(2);
    buffer.push(val(10));
    buffer.push(val(20));
    buffer.push(val(30));
    assert_eq!(buffer.get(0).value, val(20));
    assert_eq!(buffer.get(1).value, val(30));
}

#[test]
fn timestamps_grow_strictly_in_insertion_order() {
    let mut buffer = TelemetryBuffer::new(4);
    for i in 1..=9u64 {
        buffer.push(val(i));
        let series = buffer.series();
        for pair in series.windows(2) {
            assert!(pair[0].timestamp < pair[1].timestamp);
        }
    }
}

#[test]
fn series_reflects_the_window_oldest_first() {
    let mut buffer = TelemetryBuffer::new(5);
    assert!(buffer.series().is_empty());
    buffer.push(val(1));
    buffer.push(val(2));
    let series = buffer.series();
    assert_eq!(series.len(), 2);
    assert_eq!(series[0].timestamp, 1);
    assert_eq!(series[0].value, val(1));
    assert_eq!(series[1].timestamp, 2);
    assert_eq!(series[1].value, val(2));
    assert_eq!(buffer.capacity(), 5);
}
