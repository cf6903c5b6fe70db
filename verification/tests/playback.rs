use encodec_explorer::synth::SamplePlayer;

#[test]
fn silence_before_any_buffer_arrives() {
    let mut p = SamplePlayer::new();
    let mut out: Vec<i64> = vec![99; 8];
    p.play(48000, 2, &mut out);
    assert_eq!(out, vec![0; 8]);
}

#[test]
fn playback_loops_the_cached_buffer() {
    // At the native rate the conversion is the identity, so the callback
    // must write buffer[p mod 4] at global frame position p across calls.
    let buffer: Vec<i64> = vec![10, 20, 30, 40];
    let mut p = SamplePlayer::new();
    p.update_samples(buffer.clone());
    let mut out: Vec<i64> = vec![0; 10];
    p.play(24000, 1, &mut out);
    for (pos, &s) in out.iter().enumerate() {
        assert_eq!(s, buffer[pos % 4]);
    }
    let mut out2: Vec<i64> = vec![0; 10];
    p.play(24000, 1, &mut out2);
    for (pos, &s) in out2.iter().enumerate() {
        assert_eq!(s, buffer[(10 + pos) % 4]);
    }
}

#[test]
fn both_channels_carry_the_same_sample() {
    // Device at 48000 Hz: the 320-sample native buffer becomes 640 samples,
    // and every frame fans one mono sample out to both channels.
    let buffer: Vec<i64> = (0..320).map(|i| i * 3 - 480).collect();
    let mut p = SamplePlayer::new();
    p.update_samples(buffer.clone());
    let mut out: Vec<i64> = vec![0; 24];
    p.play(48000, 2, &mut out);
    for f in 0..12 {
        assert_eq!(out[2 * f], out[2 * f + 1]);
        assert_eq!(out[2 * f], buffer[f / 2]);
    }
}

#[test]
fn rate_change_rebuilds_and_restarts() {
    let buffer: Vec<i64> = (0..320).map(|i| i + 1).collect();
    let mut p = SamplePlayer::new();
    p.update_samples(buffer.clone());
    let mut out: Vec<i64> = vec![0; 6];
    p.play(24000, 1, &mut out);
    assert_eq!(out, vec![1, 2, 3, 4, 5, 6]);
    // The device rate changes: the cached conversion is rebuilt and playback
    // restarts from the front of the buffer.
    let mut out2: Vec<i64> = vec![0; 6];
    p.play(48000, 1, &mut out2);
    assert_eq!(out2, vec![1, 1, 2, 2, 3, 3]);
}

#[test]
fn newer_buffer_supersedes_unconsumed_one() {
    let first: Vec<i64> = vec![7; 16];
    let second: Vec<i64> = vec![-5; 16];
    let mut p = SamplePlayer::new();
    p.update_samples(first);
    p.update_samples(second);
    let mut out: Vec<i64> = vec![0; 4];
    p.play(24000, 1, &mut out);
    assert_eq!(out, vec![-5; 4]);
}

#[test]
fn adopting_a_buffer_restarts_the_loop() {
    let first: Vec<i64> = vec![1, 2, 3, 4];
    let mut p = SamplePlayer::new();
    p.update_samples(first.clone());
    let mut out: Vec<i64> = vec![0; 3];
    p.play(24000, 1, &mut out);
    assert_eq!(out, vec![1, 2, 3]);
    let second: Vec<i64> = vec![8, 9];
    p.update_samples(second);
    let mut out2: Vec<i64> = vec![0; 5];
    p.play(24000, 1, &mut out2);
    assert_eq!(out2, vec![8, 9, 8, 9, 8]);
}

#[test]
fn empty_output_still_adopts_the_buffer() {
    let mut p = SamplePlayer::new();
    p.update_samples(vec![1, 2, 3]);
    let mut none: Vec<i64> = Vec::new();
    p.play(24000, 2, &mut none);
    assert!(none.is_empty());
    // The buffer was adopted and no frame was consumed.
    let mut out: Vec<i64> = vec![0; 2];
    p.play(24000, 1, &mut out);
    assert_eq!(out, vec![1, 2]);
}

#[test]
fn last_known_buffer_keeps_looping() {
    // No new buffer, no rate change: playback continues where it stopped.
    let buffer: Vec<i64> = vec![5, 6, 7];
    let mut p = SamplePlayer::new();
    p.update_samples(buffer);
    let mut out: Vec<i64> = vec![0; 2];
    p.play(24000, 1, &mut out);
    assert_eq!(out, vec![5, 6]);
    let mut out2: Vec<i64> = vec![0; 4];
    p.play(24000, 1, &mut out2);
    assert_eq!(out2, vec![7, 5, 6, 7]);
}
