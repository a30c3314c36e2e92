use tuning_link::encoder::{Event, ModeTag, ParamTag, encode_event};
use tuning_link::link::LinkCore;
use tuning_link::value::Value;

fn val(negative: bool, mantissa: u64, scale: usize) -> Value {
    Value { negative, mantissa, scale }
}

#[test]
fn parameter_event_encodes_as_tag_colon_value() {
    let event = Event::SetParam(ParamTag::Proportional, val(false, 5, 1));
    assert_eq!(encode_event(&event), b"p:0.5".to_vec());
}

#[test]
fn kalman_mode_selection_encodes_as_bare_symbol() {
    assert_eq!(encode_event(&Event::SelectMode(ModeTag::Kalman)), b"K".to_vec());
}

#[test]
fn every_mode_symbol_matches_the_device_alphabet() {
    assert_eq!(encode_event(&Event::SelectMode(ModeTag::Complementary)), b"k".to_vec());
    assert_eq!(encode_event(&Event::SelectMode(ModeTag::Kalman)), b"K".to_vec());
    assert_eq!(encode_event(&Event::SelectMode(ModeTag::Pid)), b"P".to_vec());
}

#[test]
fn every_parameter_tag_matches_the_device_alphabet() {
    let one = val(false, 1, 0);
    let cases: [(ParamTag, &[u8]); 7] = [
        (ParamTag::Alpha, b"a:1"),
        (ParamTag::GainX, b"x:1"),
        (ParamTag::GainY, b"y:1"),
        (ParamTag::GainZ, b"z:1"),
        (ParamTag::Proportional, b"p:1"),
        (ParamTag::Integral, b"i:1"),
        (ParamTag::Derivative, b"d:1"),
    ];
    for (tag, expected) in cases {
        assert_eq!(encode_event(&Event::SetParam(tag, one)).as_slice(), expected);
    }
}

#[test]
fn negative_parameter_values_keep_their_sign() {
    let event = Event::SetParam(ParamTag::Alpha, val(true, 99, 2));
    assert_eq!(encode_event(&event), b"a:-0.99".to_vec());
}

#[test]
fn a_cycle_decodes_inbound_and_encodes_one_outbound_command() {
    let mut core = LinkCore::new();
    let (values, outbound) = core.cycle(b"1.5\n", Some(&Event::SelectMode(ModeTag::Kalman)));
    assert_eq!(values, vec![val(false, 15, 1)]);
    assert_eq!(outbound, Some(b"K".to_vec()));
    let (values, outbound) = core.cycle(b"", None);
    assert!(values.is_empty());
    assert_eq!(outbound, None);
}
