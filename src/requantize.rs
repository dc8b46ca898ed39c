//! Bit-depth reduction: the low bits of each 16-bit sample are overwritten,
//! leaving `bit_depth` significant bits in an unchanged 16-bit container.

use vstd::prelude::*;
use vstd::arithmetic::power2::{pow2, lemma2_to64, lemma_pow2_adds, lemma_pow2_pos, lemma_pow2_strictly_increases};
use vstd::arithmetic::div_mod::{lemma_fundamental_div_mod, lemma_fundamental_div_mod_converse, lemma_mod_multiples_vanish};

use crate::sound::{same_length, Channel, Sound};
use vstd::bits::lemma_u16_shl_is_mul;

verus! {

/// Width of a stored sample, in bits.
pub const SAMPLE_BITS: u8 = 16;

/// The step between neighbouring levels at `bit_depth` significant bits.
pub open spec fn quantum(bit_depth: int) -> int {
    pow2((16 - bit_depth) as nat) as int
}

/// A sample after requantization: a non-negative sample moves to the top of
/// its step (the discarded bits all set), a negative one to the bottom of
/// its step (the discarded bits all clear).
pub open spec fn requantized(s: int, bit_depth: int) -> int {
    let step = quantum(bit_depth);
    if s >= 0 {
        s - s % step + (step - 1)
    } else {
        s - s % step
    }
}

/// Every channel requantized sample by sample.
pub open spec fn requantized_tracks(tracks: Seq<Seq<i16>>, bit_depth: int) -> Seq<Seq<i16>> {
    tracks.map_values(
        |t: Seq<i16>| t.map_values(|s: i16| requantized(s as int, bit_depth) as i16),
    )
}

/// Facts on the step: for `1 <= bit_depth <= 16` it is a power of two that
/// divides `2^15`.
proof fn lemma_quantum(bit_depth: int)
    requires
        1 <= bit_depth <= 16,
    ensures
        quantum(bit_depth) >= 1,
        quantum(bit_depth) * pow2((bit_depth - 1) as nat) == 0x8000,
        bit_depth == 16 ==> quantum(bit_depth) == 1,
{
    lemma2_to64();
    lemma_pow2_pos((16 - bit_depth) as nat);
    lemma_pow2_adds((16 - bit_depth) as nat, (bit_depth - 1) as nat);
}

/// A requantized sample stays a 16-bit value, lies less than one step from
/// the input sample, and is a fixed point of requantization; at 16 bits it
/// is the input sample itself.
pub proof fn lemma_requantized_sample(s: i16, bit_depth: int)
    requires
        1 <= bit_depth <= 16,
    ensures
        i16::MIN <= requantized(s as int, bit_depth) <= i16::MAX,
        -quantum(bit_depth) < requantized(s as int, bit_depth) - s < quantum(bit_depth),
        requantized(requantized(s as int, bit_depth), bit_depth) == requantized(
            s as int,
            bit_depth,
        ),
        bit_depth == 16 ==> requantized(s as int, bit_depth) == s,
{
    let step = quantum(bit_depth);
    let h = pow2((bit_depth - 1) as nat) as int;
    lemma_quantum(bit_depth);
    lemma_fundamental_div_mod(s as int, step);
    let q = s as int / step;
    let m = s as int % step;
    let r = requantized(s as int, bit_depth);
    if s >= 0 {
        assert(q < h) by (nonlinear_arith)
            requires
                s == step * q + m,
                0 <= m,
                s < 0x8000,
                step * h == 0x8000,
                step >= 1,
        ;
        assert(r == q * step + (step - 1));
        assert(r <= 0x7fff) by (nonlinear_arith)
            requires
                r == q * step + (step - 1),
                q <= h - 1,
                step * h == 0x8000,
                step >= 1,
        ;
        assert(r >= 0) by (nonlinear_arith)
            requires
                r == q * step + (step - 1),
                s == step * q + m,
                m < step,
                s >= 0,
        ;
        lemma_fundamental_div_mod_converse(r, step, q, step - 1);
    } else {
        assert(q >= -h) by (nonlinear_arith)
            requires
                s == step * q + m,
                m < step,
                s >= -0x8000,
                step * h == 0x8000,
                step >= 1,
        ;
        assert(r == q * step);
        assert(r >= -0x8000) by (nonlinear_arith)
            requires
                r == q * step,
                q >= -h,
                step * h == 0x8000,
                step >= 1,
        ;
        lemma_fundamental_div_mod_converse(r, step, q, 0);
    }
}

/// At the full depth of 16 bits requantization changes nothing.
pub proof fn lemma_full_depth_identity(tracks: Seq<Seq<i16>>)
    ensures
        requantized_tracks(tracks, 16) == tracks,
{
    assert forall|c: int| 0 <= c < tracks.len() implies #[trigger] requantized_tracks(
        tracks,
        16,
    )[c] == tracks[c] by {
        assert forall|i: int| 0 <= i < tracks[c].len() implies requantized_tracks(tracks, 16)[c][i]
            == tracks[c][i] by {
            lemma_requantized_sample(tracks[c][i], 16);
        }
        assert(requantized_tracks(tracks, 16)[c] =~= tracks[c]);
    }
    assert(requantized_tracks(tracks, 16) =~= tracks);
}

/// Requantizing twice to the same depth is the same as requantizing once.
pub proof fn lemma_requantize_idempotent(tracks: Seq<Seq<i16>>, bit_depth: int)
    requires
        1 <= bit_depth <= 16,
    ensures
        requantized_tracks(requantized_tracks(tracks, bit_depth), bit_depth) == requantized_tracks(
            tracks,
            bit_depth,
        ),
{
    let once = requantized_tracks(tracks, bit_depth);
    let twice = requantized_tracks(once, bit_depth);
    assert forall|c: int| 0 <= c < tracks.len() implies #[trigger] twice[c] == once[c] by {
        assert forall|i: int| 0 <= i < tracks[c].len() implies twice[c][i] == once[c][i] by {
            lemma_requantized_sample(tracks[c][i], bit_depth);
        }
        assert(twice[c] =~= once[c]);
    }
    assert(twice =~= once);
}

proof fn lemma_masks(u: u16, k: u16)
    by (bit_vector)
    requires
        k < 16,
    ensures
        u < 0x8000 ==> (u & (0xffffu16 << k)) | (0xffffu16 & !(0xffffu16 << k)) == u - u % (1u16
            << k) + ((1u16 << k) - 1),
        u < 0x8000 ==> (u & (0xffffu16 << k)) | (0xffffu16 & !(0xffffu16 << k)) < 0x8000,
        u >= 0x8000 ==> (u & (0xffffu16 << k)) | (0u16 & !(0xffffu16 << k)) == u - u % (1u16
            << k),
        u >= 0x8000 ==> (u & (0xffffu16 << k)) | (0u16 & !(0xffffu16 << k)) >= 0x8000,
        u & 0x8000 == 0 <==> u < 0x8000,
{
}

proof fn lemma_reinterpret(s: i16)
    by (bit_vector)
    ensures
        s >= 0 ==> s as u16 == s,
        s < 0 ==> s as u16 == s + 0x10000,
        ((s as u16) < 0x8000) <==> s >= 0,
{
}

proof fn lemma_reinterpret_back(u: u16)
    by (bit_vector)
    ensures
        u < 0x8000 ==> u as i16 == u,
        u >= 0x8000 ==> u as i16 == u - 0x10000,
{
}

/// Requantizes one sample to `bit_depth` significant bits.
pub fn requantize_sample(sample: i16, bit_depth: u8) -> (r: i16)
    requires
        1 <= bit_depth <= SAMPLE_BITS,
    ensures
        r as int == requantized(sample as int, bit_depth as int),
        -quantum(bit_depth as int) < r - sample < quantum(bit_depth as int),
{
    proof {
        lemma_requantized_sample(sample, bit_depth as int);
    }
    let k: u16 = (SAMPLE_BITS - bit_depth) as u16;
    let ghost step = quantum(bit_depth as int);
    proof {
        lemma2_to64();
        lemma_pow2_pos(k as nat);
        lemma_pow2_adds(k as nat, (16 - k) as nat);
        if k < 15 {
            lemma_pow2_strictly_increases(k as nat, 15);
        }
        lemma_u16_shl_is_mul(1, k);
        assert(step == (1u16 << k) as int);
    }
    if bit_depth == SAMPLE_BITS {
        assert(sample % 1 == 0);
        return sample;
    }
    let hi_mask: u16 = 0xffffu16 << k;
    let lo_mask: u16 = !hi_mask;
    let bits: u16 = sample as u16;
    let fill: u16 = if bits & 0x8000 == 0 {
        0xffff
    } else {
        0
    };
    let out: u16 = (bits & hi_mask) | (fill & lo_mask);
    proof {
        lemma_masks(bits, k);
        lemma_reinterpret(sample);
        lemma_reinterpret_back(out);
        if sample < 0 {
            let m = pow2((16 - k) as nat) as int;
            assert(step * m == 0x10000);
            lemma_mod_multiples_vanish(m, sample as int, step);
        }
    }
    out as i16
}

/// Requantizes every sample of every channel to `bit_depth` significant bits.
pub fn requantize(sound: Sound, bit_depth: u8) -> (r: Sound)
    requires
        1 <= bit_depth <= SAMPLE_BITS,
    ensures
        r.tracks() == requantized_tracks(sound.tracks(), bit_depth as int),
        r.sample_rate == sound.sample_rate,
        same_length(sound.tracks()) ==> same_length(r.tracks()),
        sound.wf() ==> r.wf(),
{
    let ghost tracks = sound.tracks();
    let mut channels: Vec<Channel> = Vec::new();
    let mut c: usize = 0;
    while c < sound.channels.len()
        invariant
            c <= sound.channels@.len(),
            1 <= bit_depth <= SAMPLE_BITS,
            tracks == sound.tracks(),
            channels@.len() == c,
            forall|j: int|
                0 <= j < c ==> (#[trigger] channels@[j]).samples@ == requantized_tracks(
                    tracks,
                    bit_depth as int,
                )[j],
        decreases sound.channels@.len() - c,
    {
        let source = &sound.channels[c].samples;
        let mut samples: Vec<i16> = Vec::new();
        let mut i: usize = 0;
        while i < source.len()
            invariant
                i <= source@.len(),
                1 <= bit_depth <= SAMPLE_BITS,
                source@ == tracks[c as int],
                samples@.len() == i,
                forall|u: int|
                    0 <= u < i ==> #[trigger] samples@[u] as int == requantized(
                        source@[u] as int,
                        bit_depth as int,
                    ),
            decreases source@.len() - i,
        {
            samples.push(requantize_sample(source[i], bit_depth));
            i += 1;
        }
        proof {
            let want = requantized_tracks(tracks, bit_depth as int)[c as int];
            assert forall|u: int| 0 <= u < i implies samples@[u] == want[u] by {
                lemma_requantized_sample(source@[u], bit_depth as int);
            }
            assert(samples@ =~= want);
        }
        channels.push(Channel { samples });
        c += 1;
    }
    let r = Sound { channels, sample_rate: sound.sample_rate };
    assert(r.tracks() =~= requantized_tracks(tracks, bit_depth as int));
    r
}

} // verus!
