//! The bitcrushing pipeline: down to a low rate, down to a coarse bit depth,
//! and back up to an output rate.

use vstd::prelude::*;

use crate::requantize::{requantize, requantized_tracks, SAMPLE_BITS};
use crate::resample::{resample, resampled_len, resampled_tracks, Interpolation};
use crate::sound::Sound;

verus! {

/// The rate at which crushed sound is played and written, samples per second.
pub const OUTPUT_RATE: u32 = 44100;

/// The channels after the whole pipeline.
pub open spec fn crushed(
    tracks: Seq<Seq<i16>>,
    sample_rate: nat,
    target_rate: nat,
    bit_depth: int,
    interpolation: Interpolation,
    output_rate: nat,
) -> Seq<Seq<i16>> {
    resampled_tracks(
        requantized_tracks(
            resampled_tracks(tracks, sample_rate, target_rate, interpolation),
            bit_depth,
        ),
        target_rate,
        output_rate,
        interpolation,
    )
}

/// Resamples `sound` to `target_rate`, requantizes it to `bit_depth`
/// significant bits, and resamples the result to `output_rate`.
pub fn process(
    sound: Sound,
    target_rate: u32,
    bit_depth: u8,
    interpolation: Interpolation,
    output_rate: u32,
) -> (r: Sound)
    requires
        sound.wf(),
        target_rate >= 1,
        output_rate >= 1,
        1 <= bit_depth <= SAMPLE_BITS,
        resampled_len(sound.tracks()[0].len(), sound.sample_rate as nat, target_rate as nat)
            <= usize::MAX,
        resampled_len(
            resampled_len(sound.tracks()[0].len(), sound.sample_rate as nat, target_rate as nat),
            target_rate as nat,
            output_rate as nat,
        ) <= usize::MAX,
    ensures
        r.tracks() == crushed(
            sound.tracks(),
            sound.sample_rate as nat,
            target_rate as nat,
            bit_depth as int,
            interpolation,
            output_rate as nat,
        ),
        r.sample_rate == output_rate,
        r.wf(),
        r.tracks().len() == sound.tracks().len(),
        r.tracks()[0].len() == resampled_len(
            resampled_len(sound.tracks()[0].len(), sound.sample_rate as nat, target_rate as nat),
            target_rate as nat,
            output_rate as nat,
        ),
{
    let low = resample(sound, target_rate, interpolation);
    let coarse = requantize(low, bit_depth);
    assert(coarse.tracks()[0].len() == low.tracks()[0].len());
    resample(coarse, output_rate, interpolation)
}

} // verus!
