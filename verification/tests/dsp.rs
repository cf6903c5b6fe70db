use encodec_explorer::resample::resample;
use encodec_explorer::stitch::{crossfade, remove_dc, stitch};

#[test]
fn crossfade_hits_the_endpoints() {
    // Weight 0 on the first window at position 0, weight 1 at the end.
    let mid1: Vec<i64> = (0..320).map(|i| 1000 + i).collect();
    let mid2: Vec<i64> = (0..320).map(|i| -500 - i).collect();
    let r = crossfade(&mid1, &mid2);
    assert_eq!(r.len(), 320);
    assert_eq!(r[0], mid2[0]);
    assert_eq!(r[319], mid1[319]);
}

#[test]
fn crossfade_midpoint_uses_floor_division() {
    let mid1: Vec<i64> = vec![10, -3, 7];
    let mid2: Vec<i64> = vec![20, 0, 9];
    let r = crossfade(&mid1, &mid2);
    assert_eq!(r, vec![20, -2, 7]); // (-3*1 + 0*1) / 2 floors to -2
}

#[test]
fn crossfade_of_two_samples_swaps_the_windows() {
    let r = crossfade(&vec![1, 2], &vec![30, 40]);
    assert_eq!(r, vec![30, 2]);
}

#[test]
fn crossfade_of_equal_windows_is_identity() {
    let w: Vec<i64> = (0..64).map(|i| 3 * i - 50).collect();
    let r = crossfade(&w, &w);
    assert_eq!(r, w);
}

#[test]
fn remove_dc_subtracts_floor_mean() {
    let v: Vec<i64> = vec![1, 2, 3, 4]; // mean floors to 2
    let r = remove_dc(&v);
    assert_eq!(r, vec![-1, 0, 1, 2]);
    let leftover: i64 = r.iter().sum();
    assert!(0 <= leftover && leftover < v.len() as i64);
}

#[test]
fn stitch_one_fragment_yields_320_samples() {
    let all: Vec<i64> = (0..4 * 320).map(|i| (i % 97) - 48).collect();
    let out = stitch(&all, 1);
    assert_eq!(out.len(), 320);
}

#[test]
fn stitch_two_fragments_yields_640_samples() {
    let all: Vec<i64> = (0..4 * 640).map(|i| (i % 113) * 5 - 280).collect();
    let out = stitch(&all, 2);
    assert_eq!(out.len(), 640);
}

#[test]
fn stitch_of_constant_input_is_all_zero() {
    // Equal windows blend to the constant; removing the mean leaves zero.
    let all: Vec<i64> = vec![1000; 4 * 320];
    let out = stitch(&all, 1);
    assert!(out.iter().all(|&s| s == 0));
}

#[test]
fn stitch_output_mean_is_zero_within_one_unit() {
    let all: Vec<i64> = (0..4 * 320).map(|i| 7 * i - 4000).collect();
    let out = stitch(&all, 1);
    let total: i64 = out.iter().sum();
    assert!(0 <= total && total < out.len() as i64);
}

#[test]
fn resample_doubles_at_double_rate() {
    let raw: Vec<i64> = (0..320).map(|i| i * 11 - 1600).collect();
    let r = resample(&raw, 24000, 48000);
    assert_eq!(r.len(), 640);
    for i in 0..320 {
        assert_eq!(r[2 * i], raw[i]);
        assert_eq!(r[2 * i + 1], raw[i]);
    }
}

#[test]
fn resample_halves_at_half_rate() {
    let raw: Vec<i64> = (0..320).map(|i| i).collect();
    let r = resample(&raw, 48000, 24000);
    assert_eq!(r.len(), 160);
    for i in 0..160 {
        assert_eq!(r[i], raw[2 * i]);
    }
}

#[test]
fn resample_at_same_rate_is_identity() {
    let raw: Vec<i64> = (0..100).map(|i| i * i).collect();
    let r = resample(&raw, 44100, 44100);
    assert_eq!(r, raw);
}

#[test]
fn resample_single_sample_at_unit_rates() {
    let r = resample(&vec![42], 1, 1);
    assert_eq!(r, vec![42]);
}

#[test]
fn resample_can_shrink_to_nothing() {
    // One sample converted far downward: the rounded length is zero.
    let r = resample(&vec![42], 24000, 8000);
    assert!(r.is_empty());
}

#[test]
fn resample_length_is_within_one_of_rounded_ratio() {
    let pairs: [(u32, u32); 6] =
        [(24000, 48000), (24000, 44100), (24000, 22050), (44100, 48000), (48000, 44100), (3, 7)];
    for (rin, rout) in pairs {
        for len in [1usize, 7, 320, 1000] {
            let raw: Vec<i64> = vec![1; len];
            let r = resample(&raw, rin, rout);
            let exact = len as f64 * rout as f64 / rin as f64;
            let diff = (r.len() as f64 - exact.round()).abs();
            assert!(diff <= 1.0, "len {} rin {} rout {}: got {}", len, rin, rout, r.len());
        }
    }
}
