use tuning_link::decoder::FrameDecoder;
use tuning_link::link::{FrameOutcome, LinkCore, classify_frame};
use tuning_link::value::Value;

fn val(negative: bool, mantissa: u64, scale: usize) -> Value {
    Value { negative, mantissa, scale }
}

#[test]
fn two_reads_split_across_boundary() {
    let mut core = LinkCore::new();
    let first = core.process_read(b"12.5\n3");
    assert_eq!(first, vec![val(false, 125, 1)]);
    let second = core.process_read(b".0\n");
    assert_eq!(second, vec![val(false, 30, 1)]);
}

#[test]
fn unparsable_frame_yields_no_sample_and_does_not_stall() {
    let mut core = LinkCore::new();
    let none = core.process_read(b"abc\n");
    assert!(none.is_empty());
    let later = core.process_read(b"7\n");
    assert_eq!(later, vec![val(false, 7, 0)]);
}

#[test]
fn several_frames_in_one_read_keep_wire_order() {
    let mut core = LinkCore::new();
    let values = core.process_read(b"1\n2.5\nnope\n-3\n");
    assert_eq!(values, vec![val(false, 1, 0), val(false, 25, 1), val(true, 3, 0)]);
}

#[test]
fn empty_read_is_a_noop() {
    let mut core = LinkCore::new();
    core.process_read(b"4");
    let values = core.process_read(b"");
    assert!(values.is_empty());
    let later = core.process_read(b"2\n");
    assert_eq!(later, vec![val(false, 42, 0)]);
}

#[test]
fn decoder_keeps_partial_bytes_across_reads() {
    let mut decoder = FrameDecoder::new();
    let frames = decoder.feed(b"ab\ncd");
    assert_eq!(frames, vec![b"ab".to_vec()]);
    assert_eq!(decoder.pending(), b"cd".to_vec());
    let frames = decoder.feed(b"ef\n");
    assert_eq!(frames, vec![b"cdef".to_vec()]);
    assert!(decoder.pending().is_empty());
}

#[test]
fn empty_frame_is_a_parse_error_not_a_crash() {
    let mut decoder = FrameDecoder::new();
    let frames = decoder.feed(b"\n");
    assert_eq!(frames, vec![b"".to_vec()]);
    assert_eq!(classify_frame(&frames[0]), FrameOutcome::TelemetryParseError);
}

#[test]
fn invalid_text_frame_is_malformed() {
    assert_eq!(classify_frame(&[0xff, 0xfe, 0x31]), FrameOutcome::MalformedFrame);
}

#[test]
fn decodable_text_that_is_no_number_is_a_parse_error() {
    assert_eq!(classify_frame(b"12..5"), FrameOutcome::TelemetryParseError);
    assert_eq!(classify_frame(b" 12.5"), FrameOutcome::TelemetryParseError);
}

#[test]
fn trailing_control_and_whitespace_are_trimmed_before_parsing() {
    assert_eq!(classify_frame(b"12.5\r"), FrameOutcome::Sample(val(false, 125, 1)));
    assert_eq!(classify_frame(b"7 \t"), FrameOutcome::Sample(val(false, 7, 0)));
}
