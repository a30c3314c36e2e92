//! Frame decoder: turns a raw byte stream, delivered as successive
//! non-blocking reads, into newline-delimited frames. Bytes after the last
//! delimiter of a read are kept for the next read, so a frame that spans a
//! read boundary is never lost.

use vstd::prelude::*;
use crate::bytes::{LINE_FEED, find_byte, lemma_find_byte, lemma_find_byte_at, find_byte_from,
    copy_range};

verus! {

/// The complete frames at the front of `b` (everything before each
/// delimiter, in order), paired with the trailing bytes after the last
/// delimiter, which no delimiter terminates yet.
pub open spec fn split_frames(b: Seq<u8>) -> (Seq<Seq<u8>>, Seq<u8>)
    decreases b.len(),
{
    let i = find_byte(b, LINE_FEED);
    if 0 <= i < b.len() {
        let rec = split_frames(b.skip(i + 1));
        (seq![b.take(i)] + rec.0, rec.1)
    } else {
        (seq![], b)
    }
}

/// The frames joined back together, one delimiter after each, with
/// `rest` appended.
pub open spec fn rejoin(frames: Seq<Seq<u8>>, rest: Seq<u8>) -> Seq<u8>
    decreases frames.len(),
{
    if frames.len() == 0 {
        rest
    } else {
        frames[0] + seq![LINE_FEED] + rejoin(frames.skip(1), rest)
    }
}

/// Splitting loses no byte: the extracted frames, re-joined with one
/// delimiter after each and followed by the leftover bytes, give back `b`.
pub proof fn lemma_split_frames_rejoin(b: Seq<u8>)
    ensures
        rejoin(split_frames(b).0, split_frames(b).1) == b,
    decreases b.len(),
{
    lemma_find_byte(b, LINE_FEED);
    let i = find_byte(b, LINE_FEED);
    if 0 <= i < b.len() {
        lemma_split_frames_rejoin(b.skip(i + 1));
        let rec = split_frames(b.skip(i + 1));
        assert((seq![b.take(i)] + rec.0).skip(1) =~= rec.0);
        assert((seq![b.take(i)] + rec.0)[0] == b.take(i));
        assert(b =~= b.take(i) + seq![LINE_FEED] + b.skip(i + 1));
    }
}

/// Does `s` hold no frame delimiter?
pub open spec fn delimiter_free(s: Seq<u8>) -> bool {
    forall|k: int| 0 <= k < s.len() ==> s[k] != LINE_FEED
}

/// Every extracted frame is everything before its delimiter and nothing
/// more: neither the frames nor the leftover bytes hold a delimiter, so
/// the decomposition that `lemma_split_frames_rejoin` reverses is the
/// only one there is.
pub proof fn lemma_split_frames_delimiter_free(b: Seq<u8>)
    ensures
        forall|i: int| 0 <= i < split_frames(b).0.len() ==> delimiter_free(
            #[trigger] split_frames(b).0[i],
        ),
        delimiter_free(split_frames(b).1),
    decreases b.len(),
{
    lemma_find_byte(b, LINE_FEED);
    let d = find_byte(b, LINE_FEED);
    if 0 <= d < b.len() {
        lemma_split_frames_delimiter_free(b.skip(d + 1));
        let rec = split_frames(b.skip(d + 1));
        assert(delimiter_free(b.take(d)));
        assert forall|i: int| 0 <= i < split_frames(b).0.len() implies delimiter_free(
            #[trigger] split_frames(b).0[i],
        ) by {
            if i == 0 {
                assert(split_frames(b).0[0] == b.take(d));
            } else {
                assert(split_frames(b).0[i] == rec.0[i - 1]);
            }
        }
    }
}

/// Joining a concatenation of frame lists is joining them one after the
/// other.
pub proof fn lemma_rejoin_frames_append(f1: Seq<Seq<u8>>, f2: Seq<Seq<u8>>, rest: Seq<u8>)
    ensures
        rejoin(f1 + f2, rest) == rejoin(f1, rejoin(f2, rest)),
    decreases f1.len(),
{
    if f1.len() == 0 {
        assert(f1 + f2 =~= f2);
    } else {
        lemma_rejoin_frames_append(f1.skip(1), f2, rest);
        assert((f1 + f2).skip(1) =~= f1.skip(1) + f2);
        assert((f1 + f2)[0] == f1[0]);
    }
}

/// Bytes appended after the leftover pass through a join unchanged.
pub proof fn lemma_rejoin_rest_append(frames: Seq<Seq<u8>>, r1: Seq<u8>, r2: Seq<u8>)
    ensures
        rejoin(frames, r1 + r2) == rejoin(frames, r1) + r2,
    decreases frames.len(),
{
    if frames.len() == 0 {
    } else {
        lemma_rejoin_rest_append(frames.skip(1), r1, r2);
        assert(frames[0] + seq![LINE_FEED] + (rejoin(frames.skip(1), r1) + r2)
            =~= (frames[0] + seq![LINE_FEED] + rejoin(frames.skip(1), r1)) + r2);
    }
}

/// The decoder run over a whole sequence of reads, starting from the
/// given pending bytes: all frames extracted, in order, and the bytes
/// still pending afterwards.
pub open spec fn decode_reads(pending: Seq<u8>, reads: Seq<Seq<u8>>) -> (Seq<Seq<u8>>, Seq<u8>)
    decreases reads.len(),
{
    if reads.len() == 0 {
        (seq![], pending)
    } else {
        let step = split_frames(pending + reads.first());
        let rec = decode_reads(step.1, reads.drop_first());
        (step.0 + rec.0, rec.1)
    }
}

/// Over any sequence of reads, the frames the decoder extracts, re-joined
/// with exactly one delimiter after each and followed by the bytes still
/// pending, reproduce the initial pending bytes and the concatenation of
/// all input bytes: no byte is lost or duplicated, including across a
/// read boundary that splits a frame.
pub proof fn lemma_decoder_lossless(pending: Seq<u8>, reads: Seq<Seq<u8>>)
    ensures
        rejoin(decode_reads(pending, reads).0, decode_reads(pending, reads).1)
            == pending + reads.flatten(),
    decreases reads.len(),
{
    if reads.len() == 0 {
        assert(pending + reads.flatten() =~= pending);
    } else {
        let step = split_frames(pending + reads.first());
        let rec = decode_reads(step.1, reads.drop_first());
        lemma_decoder_lossless(step.1, reads.drop_first());
        lemma_rejoin_frames_append(step.0, rec.0, rec.1);
        lemma_rejoin_rest_append(step.0, step.1, reads.drop_first().flatten());
        lemma_split_frames_rejoin(pending + reads.first());
        assert((pending + reads.first()) + reads.drop_first().flatten()
            =~= pending + reads.flatten());
    }
}

/// Accumulates bytes across reads and hands out the complete frames.
pub struct FrameDecoder {
    pending: Vec<u8>,
}

impl View for FrameDecoder {
    type V = Seq<u8>;

    /// The bytes buffered from earlier reads that no delimiter has
    /// terminated yet.
    closed spec fn view(&self) -> Seq<u8> {
        self.pending@
    }
}

impl FrameDecoder {
    /// A decoder with no bytes pending.
    pub fn new() -> (d: FrameDecoder)
        ensures
            d@ == Seq::<u8>::empty(),
    {
        FrameDecoder { pending: Vec::new() }
    }

    /// A copy of the bytes still pending.
    pub fn pending(&self) -> (r: Vec<u8>)
        ensures
            r@ == self@,
    {
        let r = copy_range(self.pending.as_slice(), 0, self.pending.len());
        proof {
            assert(self.pending@.subrange(0, self.pending@.len() as int) =~= self.pending@);
        }
        r
    }

    /// Feed the bytes of one read; returns the frames now complete, in
    /// order. The bytes after the last delimiter stay pending.
    pub fn feed(&mut self, input: &[u8]) -> (frames: Vec<Vec<u8>>)
        ensures
            frames.deep_view() == split_frames(old(self)@ + input@).0,
            final(self)@ == split_frames(old(self)@ + input@).1,
    {
        let ghost p0: Seq<u8> = self.pending@;
        let mut i: usize = 0;
        while i < input.len()
            invariant
                i <= input@.len(),
                self.pending@ == p0 + input@.take(i as int),
            decreases input@.len() - i,
        {
            self.pending.push(input[i]);
            proof {
                assert(p0 + input@.take(i as int) + seq![input@[i as int]]
                    =~= p0 + input@.take(i + 1));
            }
            i = i + 1;
        }
        proof {
            assert(self.pending@ =~= p0 + input@);
        }
        let ghost total: Seq<u8> = self.pending@;
        let mut frames: Vec<Vec<u8>> = Vec::new();
        let mut start: usize = 0;
        proof {
            assert(total.skip(0) =~= total);
            assert(frames.deep_view() =~= Seq::<Seq<u8>>::empty());
            assert(Seq::<Seq<u8>>::empty() + split_frames(total).0 =~= split_frames(total).0);
        }
        loop
            invariant
                start <= total.len(),
                self.pending@ == total,
                split_frames(total).0 == frames.deep_view()
                    + split_frames(total.skip(start as int)).0,
                split_frames(total).1 == split_frames(total.skip(start as int)).1,
            ensures
                start <= total.len(),
                self.pending@ == total,
                split_frames(total).0 == frames.deep_view(),
                split_frames(total).1 == total.skip(start as int),
            decreases total.len() - start,
        {
            match find_byte_from(self.pending.as_slice(), start, LINE_FEED) {
                None => {
                    proof {
                        let tail = total.skip(start as int);
                        assert(forall|j: int| 0 <= j < tail.len()
                            ==> tail[j] == total[start + j] && tail[j] != LINE_FEED);
                        lemma_find_byte_at(tail, LINE_FEED, tail.len() as int);
                        assert(frames.deep_view() + split_frames(tail).0 =~= frames.deep_view());
                    }
                    break;
                },
                Some(j) => {
                    assert(j < self.pending.len());
                    let frame = copy_range(self.pending.as_slice(), start, j);
                    let ghost fdv0 = frames.deep_view();
                    frames.push(frame);
                    proof {
                        let tail = total.skip(start as int);
                        let k = j - start as int;
                        assert(forall|t: int| 0 <= t < tail.len() ==> tail[t] == total[start + t]);
                        lemma_find_byte_at(tail, LINE_FEED, k);
                        assert(tail.skip(k + 1) =~= total.skip(j + 1));
                        assert(tail.take(k) =~= total.subrange(start as int, j as int));
                        assert(frame.deep_view() =~= frame@);
                        assert(frames.deep_view() =~= fdv0.push(frame@));
                        assert(split_frames(tail).0 == seq![tail.take(k)] + split_frames(total.skip(j + 1)).0);
                        assert(fdv0.push(frame@) + split_frames(total.skip(j + 1)).0
                            =~= fdv0 + (seq![tail.take(k)] + split_frames(total.skip(j + 1)).0));
                    }
                    start = j + 1;
                },
            }
        }
        let rest = copy_range(self.pending.as_slice(), start, self.pending.len());
        self.pending = rest;
        frames
    }
}

} // verus!
