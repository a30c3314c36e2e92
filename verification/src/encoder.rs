//! Command encoder: maps each parameter-change event to exactly one
//! ASCII command frame, synchronously and with no I/O. A parameter event
//! encodes as `tag:value`; selecting a filter or controller encodes as
//! its single-character symbol alone. The tag alphabet is closed and
//! fixed by the device.

use vstd::prelude::*;
use crate::value::{Value, spec_format, format_value};

verus! {

/// ASCII colon, separating a tag from its value.
pub const COLON: u8 = 58;

/// A filter or controller variant the device can be switched to.
#[derive(Clone, Copy, Debug, PartialEq, Eq, Structural)]
pub enum ModeTag {
    /// Complementary filter, symbol `k`.
    Complementary,
    /// Kalman filter, symbol `K`.
    Kalman,
    /// PID controller, symbol `P`.
    Pid,
}

/// A tunable parameter of the device.
#[derive(Clone, Copy, Debug, PartialEq, Eq, Structural)]
pub enum ParamTag {
    /// Complementary-filter coefficient, tag `a`.
    Alpha,
    /// Kalman gain x, tag `x`.
    GainX,
    /// Kalman gain y, tag `y`.
    GainY,
    /// Kalman gain z, tag `z`.
    GainZ,
    /// Proportional gain, tag `p`.
    Proportional,
    /// Integral gain, tag `i`.
    Integral,
    /// Derivative gain, tag `d`.
    Derivative,
}

/// One user-triggered parameter-change event.
#[derive(Clone, Copy, Debug, PartialEq, Eq, Structural)]
pub enum Event {
    /// Switch the device to a filter or controller variant.
    SelectMode(ModeTag),
    /// Set a tunable parameter to a new value.
    SetParam(ParamTag, Value),
}

/// The ASCII symbol of a mode: `k`, `K` or `P`.
pub open spec fn mode_byte(m: ModeTag) -> u8 {
    match m {
        ModeTag::Complementary => 107,
        ModeTag::Kalman => 75,
        ModeTag::Pid => 80,
    }
}

/// The ASCII tag of a parameter: `a`, `x`, `y`, `z`, `p`, `i` or `d`.
pub open spec fn param_byte(t: ParamTag) -> u8 {
    match t {
        ParamTag::Alpha => 97,
        ParamTag::GainX => 120,
        ParamTag::GainY => 121,
        ParamTag::GainZ => 122,
        ParamTag::Proportional => 112,
        ParamTag::Integral => 105,
        ParamTag::Derivative => 100,
    }
}

/// The command frame an event encodes to: the bare mode symbol, or
/// `tag`, colon, decimal value. Newline-free by construction.
pub open spec fn spec_encode(e: Event) -> Seq<u8> {
    match e {
        Event::SelectMode(m) => seq![mode_byte(m)],
        Event::SetParam(t, v) => seq![param_byte(t), COLON] + spec_format(v),
    }
}

/// The ASCII symbol of a mode, as `mode_byte` gives it.
pub fn mode_byte_of(m: ModeTag) -> (b: u8)
    ensures
        b == mode_byte(m),
{
    match m {
        ModeTag::Complementary => 107,
        ModeTag::Kalman => 75,
        ModeTag::Pid => 80,
    }
}

/// The ASCII tag of a parameter, as `param_byte` gives it.
pub fn param_byte_of(t: ParamTag) -> (b: u8)
    ensures
        b == param_byte(t),
{
    match t {
        ParamTag::Alpha => 97,
        ParamTag::GainX => 120,
        ParamTag::GainY => 121,
        ParamTag::GainZ => 122,
        ParamTag::Proportional => 112,
        ParamTag::Integral => 105,
        ParamTag::Derivative => 100,
    }
}

/// Encodes one event as its command frame, exactly as `spec_encode`
/// describes.
pub fn encode_event(e: &Event) -> (frame: Vec<u8>)
    ensures
        frame@ == spec_encode(*e),
{
    match e {
        Event::SelectMode(m) => {
            let mut frame: Vec<u8> = Vec::new();
            frame.push(mode_byte_of(*m));
            proof {
                assert(frame@ =~= seq![mode_byte(*m)]);
            }
            frame
        },
        Event::SetParam(t, v) => {
            let mut frame: Vec<u8> = Vec::new();
            frame.push(param_byte_of(*t));
            frame.push(COLON);
            let body = format_value(*v);
            let ghost head = frame@;
            let mut i: usize = 0;
            while i < body.len()
                invariant
                    i <= body@.len(),
                    frame@ == head + body@.take(i as int),
                decreases body@.len() - i,
            {
                frame.push(body[i]);
                proof {
                    assert(head + body@.take(i as int) + seq![body@[i as int]] =~= head
                        + body@.take(i + 1));
                }
                i = i + 1;
            }
            proof {
                assert(body@.take(body@.len() as int) =~= body@);
                assert(frame@ =~= spec_encode(*e));
            }
            frame
        },
    }
}

} // verus!
