//! Link worker core: the decisions of one polling cycle against the
//! transport. Raw bytes go through the frame decoder; each complete frame
//! is checked as text, trimmed of trailing control and whitespace bytes,
//! and parsed as a decimal scalar. A frame that is not decodable text is
//! a non-fatal malformed frame; one whose payload fails numeric parsing
//! loses that sample only. The link itself carries on either way. The
//! transport reads and writes, the channels and the sleep between cycles
//! stay with the caller.

use vstd::prelude::*;
use crate::decoder::{FrameDecoder, split_frames};
use crate::encoder::{Event, spec_encode, encode_event};
use crate::value::{Value, spec_parse, well_formed_number, unsigned_part, sign_len, body_digits,
    is_digit, DECIMAL_POINT, MINUS_SIGN, PLUS_SIGN};
use crate::bytes::{find_byte, lemma_find_byte};

verus! {

/// Is `b` an ASCII control or whitespace byte, stripped from the end of
/// a frame payload before parsing?
pub open spec fn is_trim_byte(b: u8) -> bool {
    b <= 32 || b == 127
}

/// `s` without its trailing control and whitespace bytes.
pub open spec fn spec_trim(s: Seq<u8>) -> Seq<u8>
    decreases s.len(),
{
    if s.len() > 0 && is_trim_byte(s.last()) {
        spec_trim(s.drop_last())
    } else {
        s
    }
}

/// Copies `s` without its trailing control and whitespace bytes.
pub fn trim_trailing(s: &[u8]) -> (r: Vec<u8>)
    ensures
        r@ == spec_trim(s@),
{
    let mut end: usize = s.len();
    proof {
        assert(s@.take(s@.len() as int) =~= s@);
    }
    while end > 0 && (s[end - 1] <= 32 || s[end - 1] == 127)
        invariant
            end <= s@.len(),
            spec_trim(s@) == spec_trim(s@.take(end as int)),
        decreases end,
    {
        proof {
            assert(s@.take(end as int).last() == s@[end - 1]);
            assert(s@.take(end as int).drop_last() =~= s@.take(end - 1));
        }
        end = end - 1;
    }
    crate::bytes::copy_range(s, 0, end)
}

/// What came of one frame: a parsed sample, a frame that was not
/// decodable text, or a payload that failed numeric parsing.
#[derive(Clone, Copy, Debug, PartialEq, Eq, Structural)]
pub enum FrameOutcome {
    /// The frame parsed to this telemetry value.
    Sample(Value),
    /// The frame was not decodable text; it is dropped, not the link.
    MalformedFrame,
    /// The payload was text but not a number; the sample is dropped.
    TelemetryParseError,
}

/// Whether the bytes decode as text. Only the trusted check below says
/// anything about this name.
pub uninterp spec fn utf8_decodes(bytes: Seq<u8>) -> bool;

/// Relies on std's `str::from_utf8`: it returns `Ok` exactly on byte
/// sequences that are valid UTF-8, and ASCII bytes (below 128) are
/// always valid UTF-8.
#[verifier::external_body]
fn text_decodable(bytes: &[u8]) -> (r: bool)
    ensures
        r == utf8_decodes(bytes@),
        (forall|i: int| 0 <= i < bytes@.len() ==> bytes@[i] < 128) ==> r,
{
    core::str::from_utf8(bytes).is_ok()
}

/// A well-formed decimal number holds only ASCII bytes.
pub proof fn lemma_well_formed_ascii(s: Seq<u8>)
    requires
        well_formed_number(s),
    ensures
        forall|i: int| 0 <= i < s.len() ==> s[i] < 128,
{
    let u = unsigned_part(s);
    let d = find_byte(u, DECIMAL_POINT);
    lemma_find_byte(u, DECIMAL_POINT);
    assert forall|i: int| 0 <= i < s.len() implies s[i] < 128 by {
        if i < sign_len(s) {
            assert(s[0] == MINUS_SIGN || s[0] == PLUS_SIGN);
        } else {
            let k = i - sign_len(s);
            assert(u[k] == s[i]);
            if 0 <= d < u.len() {
                if k == d {
                    assert(u[k] == DECIMAL_POINT);
                } else if k < d {
                    assert(body_digits(u)[k] == u[k]);
                    assert(is_digit(u[k]));
                } else {
                    assert(body_digits(u)[k - 1] == u[k]);
                    assert(is_digit(u[k]));
                }
            } else {
                assert(body_digits(u) == u);
                assert(is_digit(u[k]));
            }
        }
    }
}

/// Trimming only removes ASCII bytes: if the trimmed payload is all
/// ASCII, so was the whole frame.
pub proof fn lemma_trim_preserves_ascii(s: Seq<u8>)
    requires
        forall|i: int| 0 <= i < spec_trim(s).len() ==> spec_trim(s)[i] < 128,
    ensures
        forall|i: int| 0 <= i < s.len() ==> s[i] < 128,
    decreases s.len(),
{
    if s.len() > 0 && is_trim_byte(s.last()) {
        assert(spec_trim(s) == spec_trim(s.drop_last()));
        lemma_trim_preserves_ascii(s.drop_last());
        assert forall|i: int| 0 <= i < s.len() implies s[i] < 128 by {
            if i < s.len() - 1 {
                assert(s.drop_last()[i] == s[i]);
            }
        }
    } else {
        assert(spec_trim(s) == s);
        assert forall|i: int| 0 <= i < s.len() implies s[i] < 128 by {
            assert(spec_trim(s)[i] == s[i]);
        }
    }
}

/// How one frame is classified: not decodable text is a malformed frame;
/// decodable text whose trimmed payload is no number loses the sample;
/// otherwise the parsed value becomes a sample.
pub open spec fn spec_classify(frame: Seq<u8>) -> FrameOutcome {
    if !utf8_decodes(frame) {
        FrameOutcome::MalformedFrame
    } else {
        match spec_parse(spec_trim(frame)) {
            Some(v) => FrameOutcome::Sample(v),
            None => FrameOutcome::TelemetryParseError,
        }
    }
}

/// Classifies one complete frame, exactly as `spec_classify` describes.
/// Whenever the trimmed payload parses as a number, the result is that
/// sample — a parseable payload is never reported malformed.
pub fn classify_frame(frame: &[u8]) -> (r: FrameOutcome)
    ensures
        r == spec_classify(frame@),
        (match spec_parse(spec_trim(frame@)) {
            Some(v) => r == FrameOutcome::Sample(v),
            None => true,
        }),
{
    if !text_decodable(frame) {
        proof {
            if spec_parse(spec_trim(frame@)) is Some {
                lemma_well_formed_ascii(spec_trim(frame@));
                lemma_trim_preserves_ascii(frame@);
            }
        }
        return FrameOutcome::MalformedFrame;
    }
    let t = trim_trailing(frame);
    match crate::value::parse_value(t.as_slice()) {
        Some(v) => FrameOutcome::Sample(v),
        None => FrameOutcome::TelemetryParseError,
    }
}

/// The samples that a run of frames yields, in decoding order: the
/// parsed value of every frame classified as a sample, and nothing from
/// the dropped ones.
pub open spec fn spec_values(frames: Seq<Seq<u8>>) -> Seq<Value>
    decreases frames.len(),
{
    if frames.len() == 0 {
        seq![]
    } else {
        let rest = spec_values(frames.skip(1));
        match spec_classify(frames[0]) {
            FrameOutcome::Sample(v) => seq![v] + rest,
            FrameOutcome::MalformedFrame => rest,
            FrameOutcome::TelemetryParseError => rest,
        }
    }
}

/// Samples keep wire order at every stage: the samples of frames
/// decoded in two batches are the samples of the first batch followed by
/// those of the second, so no later read can reorder earlier telemetry.
pub proof fn lemma_spec_values_append(f1: Seq<Seq<u8>>, f2: Seq<Seq<u8>>)
    ensures
        spec_values(f1 + f2) == spec_values(f1) + spec_values(f2),
    decreases f1.len(),
{
    if f1.len() == 0 {
        assert(f1 + f2 =~= f2);
        assert(spec_values(f1) =~= Seq::<Value>::empty());
        assert(spec_values(f1) + spec_values(f2) =~= spec_values(f2));
    } else {
        assert((f1 + f2)[0] == f1[0]);
        assert((f1 + f2).skip(1) =~= f1.skip(1) + f2);
        lemma_spec_values_append(f1.skip(1), f2);
        match spec_classify(f1[0]) {
            FrameOutcome::Sample(v) => {
                assert(seq![v] + (spec_values(f1.skip(1)) + spec_values(f2)) =~= (seq![v]
                    + spec_values(f1.skip(1))) + spec_values(f2));
            },
            FrameOutcome::MalformedFrame => {},
            FrameOutcome::TelemetryParseError => {},
        }
    }
}

/// Classifying one more frame appends at most its one sample.
pub proof fn lemma_spec_values_push(frames: Seq<Seq<u8>>, f: Seq<u8>)
    ensures
        spec_values(frames.push(f)) == spec_values(frames) + (match spec_classify(f) {
            FrameOutcome::Sample(v) => seq![v],
            FrameOutcome::MalformedFrame => Seq::<Value>::empty(),
            FrameOutcome::TelemetryParseError => Seq::<Value>::empty(),
        }),
    decreases frames.len(),
{
    let tail = match spec_classify(f) {
        FrameOutcome::Sample(v) => seq![v],
        FrameOutcome::MalformedFrame => Seq::<Value>::empty(),
        FrameOutcome::TelemetryParseError => Seq::<Value>::empty(),
    };
    if frames.len() == 0 {
        let e: Seq<Seq<u8>> = Seq::empty();
        assert(frames.push(f)[0] == f);
        assert(frames.push(f).skip(1) =~= e);
        assert(spec_values(e) =~= Seq::<Value>::empty());
        assert(spec_values(frames) =~= Seq::<Value>::empty());
        assert(spec_values(frames) + tail =~= tail);
        match spec_classify(f) {
            FrameOutcome::Sample(v) => {
                assert(seq![v] + spec_values(frames.push(f).skip(1)) =~= seq![v]);
            },
            FrameOutcome::MalformedFrame => {},
            FrameOutcome::TelemetryParseError => {},
        }
    } else {
        assert(frames.push(f)[0] == frames[0]);
        assert(frames.push(f).skip(1) =~= frames.skip(1).push(f));
        lemma_spec_values_push(frames.skip(1), f);
        match spec_classify(frames[0]) {
            FrameOutcome::Sample(v) => {
                assert(seq![v] + (spec_values(frames.skip(1)) + tail) =~= (seq![v] + spec_values(
                    frames.skip(1),
                )) + tail);
            },
            FrameOutcome::MalformedFrame => {},
            FrameOutcome::TelemetryParseError => {},
        }
    }
}

/// The state the link worker carries between polling cycles: the frame
/// decoder with its cross-read accumulation.
pub struct LinkCore {
    decoder: FrameDecoder,
}

impl View for LinkCore {
    type V = Seq<u8>;

    /// The bytes read but not yet terminated by a delimiter.
    closed spec fn view(&self) -> Seq<u8> {
        self.decoder@
    }
}

impl LinkCore {
    /// A fresh link core with nothing pending.
    pub fn new() -> (c: LinkCore)
        ensures
            c@ == Seq::<u8>::empty(),
    {
        LinkCore { decoder: FrameDecoder::new() }
    }

    /// Runs one read's bytes through decoding and classification: the
    /// samples of all frames completed by this read, in wire order.
    /// Bytes after the last delimiter stay pending for the next read; an
    /// empty read completes no frame and changes nothing.
    pub fn process_read(&mut self, input: &[u8]) -> (values: Vec<Value>)
        ensures
            final(self)@ == split_frames(old(self)@ + input@).1,
            values@ == spec_values(split_frames(old(self)@ + input@).0),
    {
        let frames = self.decoder.feed(input);
        let ghost fseq = frames.deep_view();
        let mut values: Vec<Value> = Vec::new();
        let mut i: usize = 0;
        proof {
            assert(fseq.take(0) =~= Seq::<Seq<u8>>::empty());
        }
        while i < frames.len()
            invariant
                i <= frames@.len(),
                frames.deep_view() == fseq,
                values@ == spec_values(fseq.take(i as int)),
            decreases frames@.len() - i,
        {
            proof {
                assert(frames@[i as int].deep_view() == fseq[i as int]);
                assert(frames@[i as int].deep_view() =~= frames@[i as int]@);
                lemma_spec_values_push(fseq.take(i as int), fseq[i as int]);
                assert(fseq.take(i as int).push(fseq[i as int]) =~= fseq.take(i + 1));
            }
            let ghost v0 = values@;
            match classify_frame(frames[i].as_slice()) {
                FrameOutcome::Sample(v) => {
                    values.push(v);
                    proof {
                        assert(values@ =~= v0 + seq![v]);
                    }
                },
                FrameOutcome::MalformedFrame => {
                    proof {
                        assert(values@ =~= v0 + Seq::<Value>::empty());
                    }
                },
                FrameOutcome::TelemetryParseError => {
                    proof {
                        assert(values@ =~= v0 + Seq::<Value>::empty());
                    }
                },
            }
            i = i + 1;
        }
        proof {
            assert(fseq.take(fseq.len() as int) =~= fseq);
        }
        values
    }

    /// One full polling cycle: run the read's bytes through decoding and
    /// classification, then drain at most one pending command into an
    /// encoded frame for the transport. The caller performs the actual
    /// read before and the write after; a failed write is tolerated
    /// without retry.
    pub fn cycle(&mut self, input: &[u8], command: Option<&Event>) -> (r: (Vec<Value>, Option<
        Vec<u8>,
    >))
        ensures
            final(self)@ == split_frames(old(self)@ + input@).1,
            r.0@ == spec_values(split_frames(old(self)@ + input@).0),
            (match command {
                Some(e) => match r.1 {
                    Some(f) => f@ == spec_encode(*e),
                    None => false,
                },
                None => r.1 is None,
            }),
    {
        let values = self.process_read(input);
        let outbound = match command {
            Some(e) => Some(encode_event(e)),
            None => None,
        };
        (values, outbound)
    }
}

} // verus!
