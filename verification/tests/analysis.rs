use sihat::{
    find_init, find_peak_sample, onset_search_ends, find_previous_zero, magnitude, overtone_candidates, pick_peaks,
    rms_window_size, AudioInfo, SampleRange, TransientSettings, FULL_SCALE, PARTS,
    SUPPRESSION_WIDTH,
};

fn settings(start: usize, hop: usize) -> TransientSettings {
    let mut s = TransientSettings::default();
    s.start_sample = start;
    s.hop_size = hop;
    s
}

/// Quiet `[+a, +a, -a, -a]` cycles followed by loud ones.
fn quiet_then_loud(quiet_len: usize, total: usize, quiet: i16, loud: i16) -> Vec<i16> {
    (0..total)
        .map(|i| {
            let amp = if i < quiet_len { quiet } else { loud };
            if i % 4 < 2 {
                amp
            } else {
                -amp
            }
        })
        .collect()
}

#[test]
fn constants_and_magnitude() {
    assert_eq!(FULL_SCALE, 32768);
    assert_eq!(PARTS, 1000);
    assert_eq!(SUPPRESSION_WIDTH, 50);
    assert_eq!(magnitude(i16::MIN), 32768);
    assert_eq!(magnitude(-5), 5);
    assert_eq!(magnitude(7), 7);
}

#[test]
fn sample_range_default() {
    let r = SampleRange::default();
    assert_eq!(r.init, 0);
    assert_eq!(r.end, 0);
}

#[test]
fn peak_by_magnitude_takes_first_largest() {
    let audio: Vec<i16> = vec![1, 5, -7, 7, 3];
    assert_eq!(find_peak_sample(&audio, 0, 5, true), 2);
    // The range is cut at the end of the audio.
    assert_eq!(find_peak_sample(&audio, 0, 100, true), 2);
    // A later start skips the earlier peak.
    assert_eq!(find_peak_sample(&audio, 3, 5, true), 3);
    // The end is exclusive.
    assert_eq!(find_peak_sample(&audio, 0, 2, true), 1);
}

#[test]
fn peak_by_signed_value() {
    let audio: Vec<i16> = vec![1, 5, -7, 7, 3];
    assert_eq!(find_peak_sample(&audio, 0, 5, false), 3);
    // Nothing rises above minus full scale: the start comes back.
    let floor: Vec<i16> = vec![i16::MIN, i16::MIN];
    assert_eq!(find_peak_sample(&floor, 1, 2, false), 1);
    let mixed: Vec<i16> = vec![i16::MIN, -32767];
    assert_eq!(find_peak_sample(&mixed, 0, 2, false), 1);
}

#[test]
fn peak_of_silence_or_empty_range_is_start() {
    let silence: Vec<i16> = vec![0; 10];
    assert_eq!(find_peak_sample(&silence, 4, 9, true), 4);
    let audio: Vec<i16> = vec![3, 9, 1];
    assert_eq!(find_peak_sample(&audio, 7, 2, true), 7);
    assert_eq!(find_peak_sample(&audio, 2, 2, true), 2);
}

#[test]
fn previous_zero_picks_quieter_neighbour() {
    // Crossing ends at 4 (audio[4] >= 0, audio[2] <= 0); |audio[2]| > |audio[3]|.
    let audio: Vec<i16> = vec![5, 6, -9, -2, 4, 8];
    assert_eq!(find_previous_zero(&audio, 0), 3);
    // On a tie the earlier sample wins.
    let tie: Vec<i16> = vec![5, 6, -2, -2, 4, 8];
    assert_eq!(find_previous_zero(&tie, 0), 2);
}

#[test]
fn previous_zero_on_exact_zero_and_start() {
    // audio[3] is zero: a crossing ends there even though audio[1] is positive.
    let audio: Vec<i16> = vec![4, 3, 2, 0, 5, 6, 7, -1, -1, 3];
    assert_eq!(find_previous_zero(&audio, 0), 2);
    // From a later start the next crossing ends at 5 (audio[3] is zero, audio[5] positive).
    assert_eq!(find_previous_zero(&audio, 4), 3);
}

#[test]
fn previous_zero_without_crossing_is_zero() {
    let audio: Vec<i16> = vec![3, 4, 5, 6, 7];
    assert_eq!(find_previous_zero(&audio, 0), 0);
    let short: Vec<i16> = vec![0, 0];
    assert_eq!(find_previous_zero(&short, 0), 0);
    let audio2: Vec<i16> = vec![-1, -2, 3, 4];
    assert_eq!(find_previous_zero(&audio2, 50), 0);
}

#[test]
fn onset_after_quiet_passage() {
    let audio = quiet_then_loud(8, 64, 10, 10000);
    let unit = AudioInfo { audio_file: audio, sample_rate: 44100 };
    // Windows at 0 and 4 are quiet and steady; the window at 8 is loud and
    // far above the one before it. The crossing ending at 8 has audio[6] and
    // audio[7] equally quiet, so the earlier one wins.
    assert_eq!(find_init(&unit, &settings(0, 4), 4), 6);
}

#[test]
fn onset_needs_threshold() {
    // The burst rises by far more than the factor but stays under 0.1 of
    // full scale, so the fallback peak search decides.
    let audio = quiet_then_loud(8, 64, 10, 2000);
    let unit = AudioInfo { audio_file: audio.clone(), sample_rate: 44100 };
    let expected = find_previous_zero(&audio, find_peak_sample(&audio, 0, 64, true));
    assert_eq!(find_init(&unit, &settings(0, 4), 4), expected);
    assert_eq!(expected, 6);
}

#[test]
fn onset_after_silence_does_not_count() {
    // After a silent window the RMS ratio counts as 1, below the factor of 3.
    let mut audio = quiet_then_loud(8, 64, 0, 10000);
    audio[40] = 11000;
    let unit = AudioInfo { audio_file: audio, sample_rate: 44100 };
    // Fallback: the loudest sample is 40, where a crossing ends (audio[38]
    // is negative); audio[38] and audio[39] are equally loud.
    assert_eq!(find_init(&unit, &settings(0, 4), 4), 38);
}

#[test]
fn silence_starts_at_zero() {
    let unit = AudioInfo { audio_file: vec![0; 40000], sample_rate: 44100 };
    assert_eq!(find_init(&unit, &TransientSettings::default(), 128), 0);
    let empty = AudioInfo::default();
    assert_eq!(find_init(&empty, &TransientSettings::default(), 128), 0);
}

#[test]
fn empty_window_never_marks_onset() {
    let audio = quiet_then_loud(8, 64, 10, 10000);
    let unit = AudioInfo { audio_file: audio.clone(), sample_rate: 44100 };
    let expected = find_previous_zero(&audio, find_peak_sample(&audio, 0, 64, true));
    assert_eq!(find_init(&unit, &settings(0, 4), 0), expected);
}

#[test]
fn onset_search_starts_at_start_sample() {
    let audio = quiet_then_loud(8, 64, 10, 10000);
    let unit = AudioInfo { audio_file: audio.clone(), sample_rate: 44100 };
    // Starting inside the loud part: every window is as loud as the one
    // before, so no onset; the fallback decides.
    let expected = find_previous_zero(&audio, find_peak_sample(&audio, 0, 64, true));
    assert_eq!(find_init(&unit, &settings(12, 4), 4), expected);
}

#[test]
fn rms_window_size_from_samples_or_time() {
    let unit = AudioInfo::default();
    let mut s = TransientSettings::default();
    assert_eq!(rms_window_size(&unit, &s), 128);
    s.use_ms_size = true;
    // 20 ms at 44.1 kHz.
    assert_eq!(rms_window_size(&unit, &s), 882);
    s.rms_ms_size = 1500;
    let unit48 = AudioInfo { audio_file: Vec::new(), sample_rate: 48000 };
    // 1.5 ms at 48 kHz.
    assert_eq!(rms_window_size(&unit48, &s), 72);
}

#[test]
fn default_settings() {
    let s = TransientSettings::default();
    assert_eq!(s.rms_sample_size, 128);
    assert!(!s.use_ms_size);
    assert_eq!(s.rms_ms_size, 20000);
    assert!(!s.set_hop_size);
    assert_eq!(s.hop_size, 128);
    assert_eq!(s.start_sample, 2000);
    assert_eq!(s.rms_factor, 3000);
    assert_eq!(s.rms_threshold, 100);
    assert_eq!(s.correlation_offset, 1000);
    assert_eq!(s.correlation_threshold, 850);
    assert_eq!(s.pitch_multiplier, 8000);
    let a = AudioInfo::default();
    assert!(a.audio_file.is_empty());
    assert_eq!(a.sample_rate, 44100);
}

#[test]
fn pick_peaks_suppresses_neighbours() {
    let mut profile: Vec<u32> = vec![0; 200];
    profile[10] = 90;
    profile[40] = 80; // within 50 of 10: silenced
    profile[100] = 70;
    profile[170] = 95;
    profile[199] = 5; // below the floor
    let peaks = pick_peaks(&profile, 10, 10);
    assert_eq!(peaks, vec![170, 10, 100]);
    // The count limits the picks.
    assert_eq!(pick_peaks(&profile, 10, 2), vec![170, 10]);
    assert_eq!(pick_peaks(&profile, 10, 0), Vec::<usize>::new());
    assert_eq!(pick_peaks(&Vec::new(), 10, 3), Vec::<usize>::new());
}

#[test]
fn pick_peaks_takes_last_of_equal_maxima() {
    let profile: Vec<u32> = vec![7, 3, 7, 1];
    assert_eq!(pick_peaks(&profile, 1, 1), vec![2]);
    // With a zero floor, silenced bins can still be picked.
    assert_eq!(pick_peaks(&profile, 0, 2), vec![2, 3]);
}

#[test]
fn overtone_candidates_loudest_first() {
    let amps: Vec<u32> = vec![1, 5, 2, 7, 3, 5, 4, 9];
    // Local peaks at 1 (5), 3 (7), 5 (5); bin 7 is at the end.
    assert_eq!(overtone_candidates(&amps), vec![3, 1, 5]);
    let flat: Vec<u32> = vec![4, 4, 4];
    assert_eq!(overtone_candidates(&flat), Vec::<usize>::new());
    assert_eq!(overtone_candidates(&vec![3]), Vec::<usize>::new());
}

#[test]
fn laxer_threshold_brings_onset_forward() {
    let mut audio = quiet_then_loud(8, 64, 10, 2000);
    audio[40] = 3000;
    let unit = AudioInfo { audio_file: audio, sample_rate: 44100 };
    // Under 0.1 of full scale there is no onset: the loudest sample (40) decides.
    let strict = settings(0, 4);
    assert_eq!(find_init(&unit, &strict, 4), 38);
    // Under 0.01 the window at 8 is an onset.
    let mut lax = settings(0, 4);
    lax.rms_threshold = 10;
    assert_eq!(find_init(&unit, &lax, 4), 6);
}

#[test]
fn start_past_first_quarter_uses_fallback() {
    let audio = quiet_then_loud(8, 64, 10, 10000);
    let unit = AudioInfo { audio_file: audio.clone(), sample_rate: 44100 };
    // 16 is a quarter of 64: no window is taken at all.
    let expected = find_previous_zero(&audio, find_peak_sample(&audio, 0, 64, true));
    assert_eq!(find_init(&unit, &settings(16, 4), 4), expected);
    // A hop that overshoots the quarter ends the search after the first window.
    assert_eq!(find_init(&unit, &settings(0, usize::MAX), 4), expected);
}

#[test]
fn zero_hop_with_onset_at_start() {
    let audio = quiet_then_loud(0, 64, 10000, 10000);
    let unit = AudioInfo { audio_file: audio, sample_rate: 44100 };
    // A factor below 1: the start window, compared with itself, rises.
    let mut s = settings(8, 0);
    s.rms_factor = 500;
    assert!(onset_search_ends(&unit, &s, 4));
    // The crossing ending at 8 has audio[6] and audio[7] equally loud.
    assert_eq!(find_init(&unit, &s, 4), 6);
    s.hop_size = 4;
    assert_eq!(find_init(&unit, &s, 4), 6);
}

#[test]
fn zero_hop_past_first_quarter_uses_fallback() {
    let audio = quiet_then_loud(8, 64, 10, 10000);
    let unit = AudioInfo { audio_file: audio.clone(), sample_rate: 44100 };
    let s = settings(16, 0);
    assert!(onset_search_ends(&unit, &s, 4));
    let expected = find_previous_zero(&audio, find_peak_sample(&audio, 0, 64, true));
    assert_eq!(find_init(&unit, &s, 4), expected);
}

#[test]
fn zero_hop_without_onset_never_ends() {
    let audio = quiet_then_loud(8, 64, 10, 10000);
    let unit = AudioInfo { audio_file: audio, sample_rate: 44100 };
    assert!(!onset_search_ends(&unit, &settings(0, 0), 4));
    assert!(onset_search_ends(&unit, &settings(0, 4), 4));
}

#[test]
fn negative_threshold_makes_silence_an_onset() {
    // An RMS of zero exceeds a negative threshold, and after a silent window
    // the ratio 1 exceeds any factor below 1.
    let unit = AudioInfo { audio_file: vec![0; 40000], sample_rate: 44100 };
    let mut s = TransientSettings::default();
    s.rms_threshold = -1;
    s.rms_factor = -1;
    // The onset is the start window (2000), where audio[2000] is zero.
    assert_eq!(find_init(&unit, &s, 128), 1998);
    // With a threshold of zero silence is no onset.
    s.rms_threshold = 0;
    assert_eq!(find_init(&unit, &s, 128), 0);
}

#[test]
fn negative_factor_accepts_any_rise() {
    let audio = quiet_then_loud(0, 64, 10000, 10000);
    let unit = AudioInfo { audio_file: audio, sample_rate: 44100 };
    let mut s = settings(0, 4);
    s.rms_factor = -500;
    // The start window, compared with itself, is loud and "rises" past -0.5.
    assert_eq!(find_init(&unit, &s, 4), 2);
}
