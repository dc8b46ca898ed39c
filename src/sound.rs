//! The in-memory signal: one sample sequence per channel plus a sample rate,
//! with conversions from and to round-robin (interleaved) order.

use vstd::prelude::*;
use vstd::arithmetic::div_mod::{lemma_fundamental_div_mod, lemma_fundamental_div_mod_converse};
use vstd::arithmetic::mul::lemma_mul_inequality;

verus! {

/// One channel: its samples in time order.
#[derive(Clone, Debug)]
pub struct Channel {
    pub samples: Vec<i16>,
}

/// A multi-channel signal. Channel `0` is the left (or only) channel.
#[derive(Clone, Debug)]
pub struct Sound {
    pub channels: Vec<Channel>,
    pub sample_rate: u32,
}

/// At least one channel, and all channels of the same length.
pub open spec fn same_length(tracks: Seq<Seq<i16>>) -> bool {
    &&& tracks.len() >= 1
    &&& forall|c: int| 0 <= c < tracks.len() ==> #[trigger] tracks[c].len() == tracks[0].len()
}

/// Splits a round-robin sequence into `count` channels; trailing samples
/// that do not fill a whole frame are dropped.
pub open spec fn deinterleaved(flat: Seq<i16>, count: nat) -> Seq<Seq<i16>> {
    Seq::new(count, |c: int| Seq::new(flat.len() / count, |t: int| flat[t * count + c]))
}

/// Round-robin order: frame by frame, channel `0` first.
pub open spec fn interleaved(tracks: Seq<Seq<i16>>) -> Seq<i16> {
    Seq::new(
        tracks.len() * tracks[0].len(),
        |i: int| tracks[i % (tracks.len() as int)][i / (tracks.len() as int)],
    )
}

/// Splitting a round-robin sequence into `count` channels and interleaving
/// them again gives back the sequence, cut to a whole number of frames.
pub proof fn lemma_interleave_deinterleave(flat: Seq<i16>, count: nat)
    requires
        count >= 1,
    ensures
        interleaved(deinterleaved(flat, count)) == flat.take(
            ((flat.len() / count) * count) as int,
        ),
{
    let tracks = deinterleaved(flat, count);
    let frames = flat.len() / count;
    let lhs = interleaved(tracks);
    let rhs = flat.take((frames * count) as int);
    lemma_fundamental_div_mod(flat.len() as int, count as int);
    assert(frames * count <= flat.len()) by (nonlinear_arith)
        requires
            flat.len() as int == count * (flat.len() as int / count as int) + flat.len() as int
                % count as int,
            frames == flat.len() as int / count as int,
            flat.len() as int % count as int >= 0,
    ;
    assert(count * frames == frames * count) by (nonlinear_arith);
    assert forall|i: int| 0 <= i < lhs.len() implies lhs[i] == rhs[i] by {
        let q = i / count as int;
        let r = i % count as int;
        lemma_fundamental_div_mod(i, count as int);
        assert(0 <= r < count);
        assert(q < frames) by (nonlinear_arith)
            requires
                i == count * q + r,
                0 <= r,
                i < frames * count,
                count >= 1,
        ;
        assert(q >= 0) by (nonlinear_arith)
            requires
                i == count * q + r,
                r < count,
                i >= 0,
                count >= 1,
        ;
        assert(q * count + r == i) by (nonlinear_arith)
            requires
                i == count * q + r,
        ;
    }
    assert(lhs =~= rhs);
}

impl Sound {
    /// The samples of each channel, in channel order.
    pub open spec fn tracks(self) -> Seq<Seq<i16>> {
        self.channels@.map_values(|ch: Channel| ch.samples@)
    }

    /// Well-formed: at least one channel, equal lengths, a positive rate.
    pub open spec fn wf(self) -> bool {
        same_length(self.tracks()) && self.sample_rate > 0
    }

    /// Builds a signal from samples in round-robin channel order.
    pub fn new(samples: &[i16], channel_count: usize, sample_rate: u32) -> (r: Sound)
        requires
            channel_count >= 1,
        ensures
            r.tracks() == deinterleaved(samples@, channel_count as nat),
            r.sample_rate == sample_rate,
            same_length(r.tracks()),
            sample_rate > 0 ==> r.wf(),
    {
        let n: usize = samples.len();
        let frames: usize = n / channel_count;
        let ghost flat = samples@;
        let ghost cc = channel_count as int;
        proof {
            lemma_fundamental_div_mod(flat.len() as int, cc);
            assert(frames * cc <= flat.len()) by (nonlinear_arith)
                requires
                    flat.len() as int == cc * (flat.len() as int / cc) + flat.len() as int % cc,
                    frames == flat.len() as int / cc,
                    flat.len() as int % cc >= 0,
            ;
        }
        let mut channels: Vec<Channel> = Vec::new();
        let mut c: usize = 0;
        while c < channel_count
            invariant
                c <= channel_count,
                frames == flat.len() / channel_count as nat,
                frames * cc <= flat.len(),
                flat.len() <= usize::MAX,
                cc == channel_count,
                flat == samples@,
                channels@.len() == c,
                forall|j: int|
                    0 <= j < c ==> (#[trigger] channels@[j]).samples@ == deinterleaved(
                        flat,
                        channel_count as nat,
                    )[j],
            decreases channel_count - c,
        {
            let mut track: Vec<i16> = Vec::new();
            let mut t: usize = 0;
            while t < frames
                invariant
                    t <= frames,
                    c < channel_count,
                    frames * cc <= flat.len(),
                    flat.len() <= usize::MAX,
                    cc == channel_count,
                    flat == samples@,
                    track@.len() == t,
                    forall|u: int| 0 <= u < t ==> #[trigger] track@[u] == flat[u * cc + c],
                decreases frames - t,
            {
                proof {
                    lemma_mul_inequality(t as int + 1, frames as int, cc);
                    assert((t as int + 1) * cc == t * cc + cc) by (nonlinear_arith);
                }
                track.push(samples[t * channel_count + c]);
                t += 1;
            }
            assert(track@ =~= deinterleaved(flat, channel_count as nat)[c as int]);
            channels.push(Channel { samples: track });
            c += 1;
        }
        let r = Sound { channels, sample_rate };
        assert(r.tracks() =~= deinterleaved(flat, channel_count as nat));
        r
    }

    /// The samples in round-robin channel order.
    pub fn interleave(&self) -> (r: Vec<i16>)
        requires
            same_length(self.tracks()),
        ensures
            r@ == interleaved(self.tracks()),
    {
        let ghost tracks = self.tracks();
        let count: usize = self.channels.len();
        let frames: usize = self.channels[0].samples.len();
        assert(tracks[0].len() == frames);
        let mut out: Vec<i16> = Vec::new();
        let mut t: usize = 0;
        while t < frames
            invariant
                t <= frames,
                tracks == self.tracks(),
                same_length(tracks),
                count == tracks.len(),
                frames == tracks[0].len(),
                out@.len() == t * count,
                forall|i: int|
                    0 <= i < t * count ==> #[trigger] out@[i] == tracks[i % (count as int)][i
                        / (count as int)],
            decreases frames - t,
        {
            let mut c: usize = 0;
            while c < count
                invariant
                    c <= count,
                    t < frames,
                    tracks == self.tracks(),
                    same_length(tracks),
                    count == tracks.len(),
                    frames == tracks[0].len(),
                    out@.len() == t * count + c,
                    forall|i: int|
                        0 <= i < t * count + c ==> #[trigger] out@[i] == tracks[i % (
                        count as int)][i / (count as int)],
                decreases count - c,
            {
                assert(tracks[c as int].len() == frames);
                let x = self.channels[c].samples[t];
                proof {
                    lemma_fundamental_div_mod_converse(
                        t * count + c,
                        count as int,
                        t as int,
                        c as int,
                    );
                }
                out.push(x);
                c += 1;
            }
            assert((t + 1) * count == t * count + count) by (nonlinear_arith);
            t += 1;
        }
        assert(frames * count == count * frames) by (nonlinear_arith);
        assert(out@ =~= interleaved(tracks));
        out
    }
}

} // verus!
