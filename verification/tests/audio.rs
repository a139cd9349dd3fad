use nemo::audio::{
    downmix_stereo, fit_frame, to_mono, upmix_stereo, SampleQueue, CAPTURE_CAP, FRAME_MONO,
};

#[test]
fn mono_averages_frames_toward_zero() {
    assert_eq!(to_mono(&[1, 2, 3], 1), vec![1, 2, 3]);
    assert_eq!(to_mono(&[1, 2, 3], 0), vec![1, 2, 3]);
    assert_eq!(to_mono(&[10, 20, -3, -4], 2), vec![15, -3]);
    // A short last frame is still divided by the channel count.
    assert_eq!(to_mono(&[3, 3, 3, 7], 3), vec![3, 2]);
    assert_eq!(to_mono(&[i16::MAX, i16::MAX], 2), vec![i16::MAX]);
}

#[test]
fn upmix_then_downmix_is_identity() {
    let mono = vec![0, 1, -1, i16::MAX, i16::MIN, 1234];
    let stereo = upmix_stereo(&mono);
    assert_eq!(stereo, vec![0, 0, 1, 1, -1, -1, i16::MAX, i16::MAX, i16::MIN, i16::MIN, 1234, 1234]);
    assert_eq!(downmix_stereo(&stereo), mono);
}

#[test]
fn downmix_keeps_a_lone_last_sample() {
    assert_eq!(downmix_stereo(&[1, 2, -3, -4, 9]), vec![1, -3, 9]);
    assert!(downmix_stereo(&[]).is_empty());
}

#[test]
fn frames_are_cut_or_padded() {
    let short = fit_frame(&[1, 2, 3]);
    assert_eq!(short.len(), FRAME_MONO);
    assert_eq!(&short[..4], &[1, 2, 3, 0]);
    let long: Vec<i16> = (0..2000).map(|i| i as i16).collect();
    let cut = fit_frame(&long);
    assert_eq!(cut, long[..FRAME_MONO].to_vec());
}

#[test]
fn sample_queue_keeps_the_newest_second() {
    let mut q = SampleQueue::new();
    q.push(&[1, 2, 3]);
    assert_eq!(q.pull(2), vec![1, 2]);
    assert_eq!(q.len(), 1);
    let big: Vec<i16> = (0..(CAPTURE_CAP + 10)).map(|i| (i % 1000) as i16).collect();
    q.push(&big);
    assert_eq!(q.len(), CAPTURE_CAP);
    let all = q.pull(usize::MAX);
    assert_eq!(all, big[10..].to_vec());
    q.push(&[7; 10]);
    let f = q.take_frame();
    assert_eq!(f.len(), FRAME_MONO);
    assert_eq!(&f[..11], &[7, 7, 7, 7, 7, 7, 7, 7, 7, 7, 0]);
    assert_eq!(q.len(), 0);
}
