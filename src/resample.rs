//! Sample-rate conversion by evaluating each channel at fractional source
//! positions. Positions are exact fractions `i * from_rate / to_rate`, so the
//! arithmetic is done on integers throughout.

use vstd::prelude::*;
use vstd::arithmetic::div_mod::{lemma_fundamental_div_mod, lemma_fundamental_div_mod_converse};

use crate::sound::{same_length, Channel, Sound};

verus! {

/// How an amplitude between two samples is estimated.
#[derive(Clone, Copy, Debug, PartialEq, Eq, Structural)]
pub enum Interpolation {
    /// The closer of the two neighbouring samples (the later one at a tie).
    Nearest,
    /// The straight line between the two neighbouring samples.
    Linear,
}

/// `p / q` rounded to the nearest integer, halves away from zero (`q > 0`).
pub open spec fn round_div(p: int, q: int) -> int {
    if p >= 0 {
        (2 * p + q) / (2 * q)
    } else {
        -((-2 * p + q) / (2 * q))
    }
}

/// The sample count after converting `len` samples from `from_rate` to
/// `to_rate`: `len * to_rate / from_rate`, rounded.
pub open spec fn resampled_len(len: nat, from_rate: nat, to_rate: nat) -> nat {
    round_div((len * to_rate) as int, from_rate as int) as nat
}

/// The amplitude of `values` at the fractional position `pos / den`,
/// multiplied by `den`. The neighbours are the samples at `floor(pos / den)`
/// and the one after it, clamped to the last sample.
pub open spec fn lerp_scaled(
    values: Seq<i16>,
    pos: int,
    den: int,
    interpolation: Interpolation,
) -> int {
    let x = pos / den;
    let y = if x + 1 < values.len() {
        x + 1
    } else {
        values.len() - 1
    };
    let a = pos % den;
    match interpolation {
        Interpolation::Nearest => if 2 * a < den {
            values[x] * den
        } else {
            values[y] * den
        },
        Interpolation::Linear => values[x] * (den - a) + values[y] * a,
    }
}

/// Sample `i` of `values` converted from `from_rate` to `to_rate`: the
/// source is read at position `i * from_rate / to_rate`, and the result rounded.
pub open spec fn resampled_sample(
    values: Seq<i16>,
    i: int,
    from_rate: int,
    to_rate: int,
    interpolation: Interpolation,
) -> int {
    round_div(lerp_scaled(values, i * from_rate, to_rate, interpolation), to_rate)
}

/// A whole channel converted from `from_rate` to `to_rate`.
pub open spec fn resampled(
    values: Seq<i16>,
    from_rate: nat,
    to_rate: nat,
    interpolation: Interpolation,
) -> Seq<i16> {
    Seq::new(
        resampled_len(values.len(), from_rate, to_rate),
        |i: int| resampled_sample(values, i, from_rate as int, to_rate as int, interpolation) as i16,
    )
}

/// Every channel converted from `from_rate` to `to_rate`.
pub open spec fn resampled_tracks(
    tracks: Seq<Seq<i16>>,
    from_rate: nat,
    to_rate: nat,
    interpolation: Interpolation,
) -> Seq<Seq<i16>> {
    tracks.map_values(|t: Seq<i16>| resampled(t, from_rate, to_rate, interpolation))
}

/// Rounding half up stays within integer bounds of the quotient.
proof fn lemma_half_up_bounds(p: int, q: int, lo: int, hi: int)
    requires
        q > 0,
        lo * q <= p <= hi * q,
    ensures
        lo <= (2 * p + q) / (2 * q) <= hi,
{
    let d = 2 * q;
    let n = 2 * p + q;
    lemma_fundamental_div_mod(n, d);
    let r = n / d;
    let m = n % d;
    assert(r <= hi) by (nonlinear_arith)
        requires
            n == d * r + m,
            0 <= m,
            d == 2 * q,
            n == 2 * p + q,
            p <= hi * q,
            q > 0,
    ;
    assert(r >= lo) by (nonlinear_arith)
        requires
            n == d * r + m,
            m < d,
            d == 2 * q,
            n == 2 * p + q,
            lo * q <= p,
            q > 0,
    ;
}

/// A rounded quotient lies within any integer bounds of the exact quotient.
proof fn lemma_round_div_bounds(p: int, q: int, lo: int, hi: int)
    requires
        q > 0,
        lo * q <= p <= hi * q,
    ensures
        lo <= round_div(p, q) <= hi,
{
    if p >= 0 {
        lemma_half_up_bounds(p, q, lo, hi);
    } else {
        assert((-hi) * q <= -p <= (-lo) * q) by (nonlinear_arith)
            requires
                lo * q <= p <= hi * q,
        ;
        lemma_half_up_bounds(-p, q, -hi, -lo);
    }
}

/// A scaled interpolated value lies between its two neighbours (scaled).
proof fn lemma_lerp_scaled_bounds(
    values: Seq<i16>,
    pos: int,
    den: int,
    interpolation: Interpolation,
)
    requires
        den > 0,
        pos >= 0,
        pos / den < values.len(),
    ensures
        i16::MIN * den <= lerp_scaled(values, pos, den, interpolation) <= i16::MAX * den,
        i16::MIN <= round_div(lerp_scaled(values, pos, den, interpolation), den) <= i16::MAX,
{
    let x = pos / den;
    let y = if x + 1 < values.len() {
        x + 1
    } else {
        values.len() - 1
    };
    let a = pos % den;
    lemma_fundamental_div_mod(pos, den);
    assert(0 <= x) by (nonlinear_arith)
        requires
            pos == den * x + a,
            a < den,
            pos >= 0,
            den > 0,
    ;
    let vx = values[x] as int;
    let vy = values[y] as int;
    let v = lerp_scaled(values, pos, den, interpolation);
    assert(i16::MIN * den <= v <= i16::MAX * den) by (nonlinear_arith)
        requires
            v == vx * den || v == vy * den || v == vx * (den - a) + vy * a,
            -0x8000 <= vx <= 0x7fff,
            -0x8000 <= vy <= 0x7fff,
            0 <= a < den,
    ;
    lemma_round_div_bounds(v, den, i16::MIN as int, i16::MAX as int);
}

/// The amplitude of `values` at the fractional position `pos / den`,
/// multiplied by `den`; for example, at `48 / 10` on `1, 2, ..., 10` this is
/// `60` for `Nearest` and `58` for `Linear`.
pub fn lerp(values: &[i16], pos: u128, den: u32, interpolation: Interpolation) -> (r: i64)
    requires
        den >= 1,
        (pos as int) / (den as int) < values@.len(),
    ensures
        r == lerp_scaled(values@, pos as int, den as int, interpolation),
        i16::MIN * den <= r <= i16::MAX * den,
{
    proof {
        lemma_lerp_scaled_bounds(values@, pos as int, den as int, interpolation);
    }
    let n: usize = values.len();
    let x: usize = (pos / (den as u128)) as usize;
    let y: usize = if x + 1 < n {
        x + 1
    } else {
        n - 1
    };
    let a: u64 = (pos % (den as u128)) as u64;
    let vx: i64 = values[x] as i64;
    let vy: i64 = values[y] as i64;
    let d: i64 = den as i64;
    match interpolation {
        Interpolation::Nearest => {
            if 2 * a < den as u64 {
                assert(-0x8000 * d <= vx * d <= 0x7fff * d) by (nonlinear_arith)
                    requires
                        -0x8000 <= vx <= 0x7fff,
                        d >= 1,
                ;
                vx * d
            } else {
                assert(-0x8000 * d <= vy * d <= 0x7fff * d) by (nonlinear_arith)
                    requires
                        -0x8000 <= vy <= 0x7fff,
                        d >= 1,
                ;
                vy * d
            }
        },
        Interpolation::Linear => {
            let b: i64 = (den as u64 - a) as i64;
            let ai: i64 = a as i64;
            assert(-0x8000 * d <= vx * b <= 0x8000 * d) by (nonlinear_arith)
                requires
                    -0x8000 <= vx <= 0x7fff,
                    0 <= b <= d,
            ;
            assert(-0x8000 * d <= vy * ai <= 0x8000 * d) by (nonlinear_arith)
                requires
                    -0x8000 <= vy <= 0x7fff,
                    0 <= ai <= d,
            ;
            vx * b + vy * ai
        },
    }
}

/// `p / q` rounded to the nearest integer, halves away from zero.
fn rounded_quotient(p: i64, q: u32) -> (r: i64)
    requires
        q >= 1,
        i16::MIN * q <= p <= i16::MAX * q,
    ensures
        r == round_div(p as int, q as int),
        i16::MIN <= r <= i16::MAX,
{
    proof {
        lemma_round_div_bounds(p as int, q as int, i16::MIN as int, i16::MAX as int);
    }
    let qq: i128 = q as i128;
    let pp: i128 = p as i128;
    if pp >= 0 {
        ((2 * pp + qq) / (2 * qq)) as i64
    } else {
        (-((-2 * pp + qq) / (2 * qq))) as i64
    }
}

/// Every output position of a conversion reads inside the source channel.
proof fn lemma_position_in_range(len: int, from_rate: int, to_rate: int, i: int)
    requires
        from_rate >= 1,
        to_rate >= 1,
        len >= 0,
        0 <= i < round_div(len * to_rate, from_rate),
    ensures
        (i * from_rate) / to_rate < len,
{
    let f = from_rate;
    let t = to_rate;
    assert(len * t >= 0) by (nonlinear_arith)
        requires
            len >= 0,
            t >= 1,
    ;
    let n = 2 * (len * t) + f;
    let c = n / (2 * f);
    lemma_fundamental_div_mod(n, 2 * f);
    assert(i * f < len * t) by (nonlinear_arith)
        requires
            n == (2 * f) * c + n % (2 * f),
            n % (2 * f) < 2 * f,
            n == 2 * (len * t) + f,
            0 <= i < c,
            f >= 1,
    ;
    lemma_fundamental_div_mod(i * f, t);
    assert((i * f) / t < len) by (nonlinear_arith)
        requires
            i * f == t * ((i * f) / t) + (i * f) % t,
            (i * f) % t >= 0,
            i * f < len * t,
            t >= 1,
    ;
}

/// No samples stay no samples, whatever the rates.
proof fn lemma_empty_len(from_rate: int, to_rate: int)
    requires
        from_rate >= 1,
    ensures
        resampled_len(0, from_rate as nat, to_rate as nat) == 0,
{
    lemma_fundamental_div_mod_converse(from_rate, 2 * from_rate, 0, from_rate);
}

/// The sample count after converting `len` samples from `from_rate` to
/// `to_rate`, computed exactly.
pub fn resampled_count(len: usize, from_rate: u32, to_rate: u32) -> (r: u128)
    requires
        from_rate >= 1,
    ensures
        r == resampled_len(len as nat, from_rate as nat, to_rate as nat),
{
    let l: u128 = len as u128;
    let t: u128 = to_rate as u128;
    assert(l * t <= 0xffff_ffff_ffff_ffff * 0xffff_ffff) by (nonlinear_arith)
        requires
            l <= 0xffff_ffff_ffff_ffff,
            t <= 0xffff_ffff,
    ;
    let num: u128 = 2 * (l * t) + from_rate as u128;
    num / (2 * from_rate as u128)
}

/// One channel converted from `from_rate` to `to_rate`, `count` samples long.
fn resample_track(
    values: &Vec<i16>,
    from_rate: u32,
    to_rate: u32,
    count: usize,
    interpolation: Interpolation,
) -> (r: Vec<i16>)
    requires
        from_rate >= 1,
        to_rate >= 1,
        count == resampled_len(values@.len(), from_rate as nat, to_rate as nat),
    ensures
        r@ == resampled(values@, from_rate as nat, to_rate as nat, interpolation),
{
    let mut out: Vec<i16> = Vec::new();
    let mut i: usize = 0;
    while i < count
        invariant
            i <= count,
            from_rate >= 1,
            to_rate >= 1,
            count == resampled_len(values@.len(), from_rate as nat, to_rate as nat),
            out@.len() == i,
            forall|u: int|
                0 <= u < i ==> #[trigger] out@[u] == resampled_sample(
                    values@,
                    u,
                    from_rate as int,
                    to_rate as int,
                    interpolation,
                ) as i16,
        decreases count - i,
    {
        assert(i * from_rate <= 0xffff_ffff_ffff_ffff * 0xffff_ffff) by (nonlinear_arith)
            requires
                i <= 0xffff_ffff_ffff_ffff,
                from_rate <= 0xffff_ffff,
        ;
        let pos: u128 = (i as u128) * (from_rate as u128);
        proof {
            lemma_position_in_range(values@.len() as int, from_rate as int, to_rate as int, i as int);
        }
        let scaled: i64 = lerp(values.as_slice(), pos, to_rate, interpolation);
        let sample: i64 = rounded_quotient(scaled, to_rate);
        out.push(sample as i16);
        i += 1;
    }
    assert(out@ =~= resampled(values@, from_rate as nat, to_rate as nat, interpolation));
    out
}

/// Converts every channel of `sound` to `sample_rate`. Each output sample
/// `i` is read from the source at position `i * sound.sample_rate / sample_rate`.
pub fn resample(sound: Sound, sample_rate: u32, interpolation: Interpolation) -> (r: Sound)
    requires
        sound.wf(),
        sample_rate >= 1,
        resampled_len(sound.tracks()[0].len(), sound.sample_rate as nat, sample_rate as nat)
            <= usize::MAX,
    ensures
        r.tracks() == resampled_tracks(
            sound.tracks(),
            sound.sample_rate as nat,
            sample_rate as nat,
            interpolation,
        ),
        r.sample_rate == sample_rate,
        r.wf(),
        r.tracks().len() == sound.tracks().len(),
        forall|c: int|
            0 <= c < r.tracks().len() ==> (#[trigger] r.tracks()[c]).len() == resampled_len(
                sound.tracks()[c].len(),
                sound.sample_rate as nat,
                sample_rate as nat,
            ),
        sound.tracks()[0].len() == 0 ==> r.tracks() == sound.tracks(),
{
    let ghost tracks = sound.tracks();
    let ghost want = resampled_tracks(
        tracks,
        sound.sample_rate as nat,
        sample_rate as nat,
        interpolation,
    );
    assert(tracks[0].len() == sound.channels@[0].samples@.len());
    let n: usize = sound.channels[0].samples.len();
    if n == 0 {
        proof {
            lemma_empty_len(sound.sample_rate as int, sample_rate as int);
            assert forall|c: int| 0 <= c < tracks.len() implies #[trigger] want[c] == tracks[c] by {
                assert(tracks[c].len() == 0);
                assert(want[c] =~= tracks[c]);
            }
            assert(want =~= tracks);
        }
        return Sound { channels: sound.channels, sample_rate };
    }
    let count: usize = resampled_count(n, sound.sample_rate, sample_rate) as usize;
    let mut channels: Vec<Channel> = Vec::new();
    let mut c: usize = 0;
    while c < sound.channels.len()
        invariant
            c <= sound.channels@.len(),
            sound.wf(),
            sample_rate >= 1,
            tracks == sound.tracks(),
            count == resampled_len(tracks[0].len(), sound.sample_rate as nat, sample_rate as nat),
            want == resampled_tracks(
                tracks,
                sound.sample_rate as nat,
                sample_rate as nat,
                interpolation,
            ),
            channels@.len() == c,
            forall|j: int| 0 <= j < c ==> (#[trigger] channels@[j]).samples@ == want[j],
        decreases sound.channels@.len() - c,
    {
        assert(tracks[c as int].len() == tracks[0].len());
        let samples = resample_track(
            &sound.channels[c].samples,
            sound.sample_rate,
            sample_rate,
            count,
            interpolation,
        );
        channels.push(Channel { samples });
        c += 1;
    }
    let r = Sound { channels, sample_rate };
    assert(r.tracks() =~= want);
    assert forall|j: int| 0 <= j < r.tracks().len() implies #[trigger] r.tracks()[j].len()
        == r.tracks()[0].len() by {
        assert(tracks[j].len() == tracks[0].len());
    }
    r
}

} // verus!
