use krusz::{
    lerp, process, requantize, requantize_sample, resample, resampled_count, Channel,
    Interpolation, Sound, OUTPUT_RATE,
};

fn mono(samples: Vec<i16>, sample_rate: u32) -> Sound {
    Sound {
        channels: vec![Channel { samples }],
        sample_rate,
    }
}

fn tracks(sound: &Sound) -> Vec<Vec<i16>> {
    sound.channels.iter().map(|c| c.samples.clone()).collect()
}

#[test]
fn test_lerp() {
    let arr: [i16; 10] = [1, 2, 3, 4, 5, 6, 7, 8, 9, 10];

    assert_eq!(lerp(&arr, 48, 10, Interpolation::Nearest) as f64 / 10.0, 6.0);
    assert_eq!(lerp(&arr, 44, 10, Interpolation::Nearest) as f64 / 10.0, 5.0);
    assert_eq!(lerp(&arr, 48, 10, Interpolation::Linear) as f64 / 10.0, 5.8);
}

#[test]
fn test_requantize() {
    assert_eq!(requantize_sample(-1, 1), i16::MIN);
    assert_eq!(requantize_sample(0, 1), i16::MAX);
    assert_eq!(requantize_sample(10, 8), 255);
    assert_eq!(requantize_sample(256, 8), 511);
}

#[test]
fn lerp_clamps_at_last_sample() {
    let arr: [i16; 3] = [4, 8, 12];
    assert_eq!(lerp(&arr, 25, 10, Interpolation::Linear), 120);
    assert_eq!(lerp(&arr, 25, 10, Interpolation::Nearest), 120);
    assert_eq!(lerp(&arr, 0, 7, Interpolation::Linear), 28);
}

#[test]
fn lerp_nearest_tie_takes_later_sample() {
    let arr: [i16; 2] = [3, 9];
    assert_eq!(lerp(&arr, 5, 10, Interpolation::Nearest), 90);
    assert_eq!(lerp(&arr, 4, 10, Interpolation::Nearest), 30);
}

#[test]
fn requantize_sample_negative_steps() {
    assert_eq!(requantize_sample(-300, 8), -512);
    assert_eq!(requantize_sample(-256, 8), -256);
    assert_eq!(requantize_sample(i16::MAX, 4), i16::MAX);
    assert_eq!(requantize_sample(i16::MIN, 4), i16::MIN);
    assert_eq!(requantize_sample(1000, 4), 4095);
}

#[test]
fn requantize_full_depth_is_identity() {
    let samples: Vec<i16> = vec![i16::MIN, -12345, -1, 0, 1, 777, i16::MAX];
    for &s in &samples {
        assert_eq!(requantize_sample(s, 16), s);
    }
    let sound = mono(samples.clone(), 44100);
    let out = requantize(sound, 16);
    assert_eq!(out.channels[0].samples, samples);
    assert_eq!(out.sample_rate, 44100);
}

#[test]
fn requantize_is_idempotent() {
    let samples: Vec<i16> = vec![i16::MIN, -12345, -1, 0, 1, 777, i16::MAX];
    for depth in 1..=16u8 {
        let once = requantize(mono(samples.clone(), 8000), depth);
        let twice = requantize(once.clone(), depth);
        assert_eq!(tracks(&once), tracks(&twice));
    }
}

#[test]
fn requantize_stays_within_one_step() {
    for depth in 1..=16u8 {
        let step: i32 = 1 << (16 - depth as i32);
        for s in [i16::MIN, -4097, -1, 0, 1, 300, 4097, i16::MAX] {
            let r = requantize_sample(s, depth) as i32;
            assert!((r - s as i32).abs() < step);
        }
    }
}

#[test]
fn requantize_keeps_rate_and_channels() {
    let sound = Sound {
        channels: vec![
            Channel { samples: vec![10, -300] },
            Channel { samples: vec![256, 0] },
        ],
        sample_rate: 22050,
    };
    let out = requantize(sound, 8);
    assert_eq!(tracks(&out), vec![vec![255, -512], vec![511, 255]]);
    assert_eq!(out.sample_rate, 22050);
}

#[test]
fn resample_count_is_rounded_ratio() {
    let out = resample(mono(vec![0; 10], 44100), 8000, Interpolation::Nearest);
    assert_eq!(out.channels[0].samples.len(), 2);
    assert_eq!(out.sample_rate, 8000);
    let out = resample(mono(vec![0; 441], 44100), 8000, Interpolation::Linear);
    assert_eq!(out.channels[0].samples.len(), 80);
    assert_eq!(resampled_count(1000, 44100, 8000), 181);
    assert_eq!(resampled_count(181, 8000, 44100), 998);
    assert_eq!(resampled_count(3, 2, 1), 2);
}

#[test]
fn resample_linear_upsampling() {
    let out = resample(mono(vec![0, 10], 2), 4, Interpolation::Linear);
    assert_eq!(out.channels[0].samples, vec![0, 5, 10, 10]);
    assert_eq!(out.sample_rate, 4);
}

#[test]
fn resample_nearest_upsampling() {
    let out = resample(mono(vec![0, 10], 2), 4, Interpolation::Nearest);
    assert_eq!(out.channels[0].samples, vec![0, 10, 10, 10]);
}

#[test]
fn resample_rounds_halves_away_from_zero() {
    let out = resample(mono(vec![-1, -2], 2), 4, Interpolation::Linear);
    assert_eq!(out.channels[0].samples, vec![-1, -2, -2, -2]);
    let out = resample(mono(vec![1, 2], 2), 4, Interpolation::Linear);
    assert_eq!(out.channels[0].samples, vec![1, 2, 2, 2]);
}

#[test]
fn resample_downsampling_picks_source_positions() {
    let out = resample(mono(vec![0, 1, 2, 3, 4, 5, 6, 7], 8), 4, Interpolation::Nearest);
    assert_eq!(out.channels[0].samples, vec![0, 2, 4, 6]);
}

#[test]
fn resample_each_channel_independently() {
    let sound = Sound {
        channels: vec![
            Channel { samples: vec![0, 10] },
            Channel { samples: vec![100, -100] },
        ],
        sample_rate: 2,
    };
    let out = resample(sound, 4, Interpolation::Linear);
    assert_eq!(tracks(&out), vec![vec![0, 5, 10, 10], vec![100, 0, -100, -100]]);
}

#[test]
fn resample_empty_channels_pass_through() {
    let sound = Sound {
        channels: vec![Channel { samples: vec![] }, Channel { samples: vec![] }],
        sample_rate: 44100,
    };
    let out = resample(sound, 8000, Interpolation::Linear);
    assert_eq!(out.sample_rate, 8000);
    assert_eq!(out.channels.len(), 2);
    assert!(out.channels.iter().all(|c| c.samples.is_empty()));
}

#[test]
fn deinterleave_splits_round_robin() {
    let sound = Sound::new(&[1, 2, 3, 4, 5, 6, 7], 2, 44100);
    assert_eq!(tracks(&sound), vec![vec![1, 3, 5], vec![2, 4, 6]]);
    assert_eq!(sound.sample_rate, 44100);
}

#[test]
fn interleave_deinterleave_round_trip() {
    let flat: Vec<i16> = (0..11).map(|i| i * 3 - 7).collect();
    for count in 1..=5usize {
        let sound = Sound::new(&flat, count, 8000);
        let whole = (flat.len() / count) * count;
        assert_eq!(sound.interleave(), flat[..whole].to_vec());
    }
    let empty = Sound::new(&[], 3, 8000);
    assert_eq!(empty.channels.len(), 3);
    assert!(empty.interleave().is_empty());
}

#[test]
fn pipeline_restores_rate_and_duration() {
    let input: Vec<i16> = (0..44100).map(|i| ((i * 37) % 20000 - 10000) as i16).collect();
    let sound = mono(input.clone(), 44100);
    let out = process(sound, 8000, 4, Interpolation::Nearest, OUTPUT_RATE);
    assert_eq!(out.sample_rate, 44100);
    assert_eq!(out.channels.len(), 1);
    let len = out.channels[0].samples.len() as i64;
    assert!((len - input.len() as i64).abs() <= 1);
    assert_ne!(out.channels[0].samples, input);
}

#[test]
fn pipeline_short_signal() {
    let input: Vec<i16> = (0..441).map(|i| (i * 50) as i16).collect();
    let out = process(mono(input.clone(), 44100), 8000, 4, Interpolation::Linear, OUTPUT_RATE);
    assert_eq!(out.sample_rate, OUTPUT_RATE);
    assert_eq!(out.channels[0].samples.len(), 441);
    assert_ne!(out.channels[0].samples, input);
}
