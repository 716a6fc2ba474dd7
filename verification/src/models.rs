use vstd::prelude::*;

verus! {

/// A decoded, normalised recording: its samples in fixed point
/// (`FULL_SCALE` stands for 1.0) and its sample rate in Hz.
pub struct AudioInfo {
    pub audio_file: Vec<i16>,
    pub sample_rate: u32,
}

impl Default for AudioInfo {
    fn default() -> (info: Self)
        ensures
            info.audio_file@.len() == 0,
            info.sample_rate == 44100,
    {
        AudioInfo { audio_file: Vec::new(), sample_rate: 44100 }
    }
}

/// Settings of the transient (onset) analysis.
///
/// Ratios and thresholds are signed thousandths (`PARTS` stands for 1.0);
/// `rms_threshold` is a fraction of full scale; `rms_ms_size` is in
/// thousandths of a millisecond.
pub struct TransientSettings {
    /// Length in samples of the RMS window, unless `use_ms_size` holds.
    pub rms_sample_size: usize,
    /// Take the RMS window length from `rms_ms_size` and the sample rate.
    pub use_ms_size: bool,
    /// Length of the RMS window in thousandths of a millisecond.
    pub rms_ms_size: u32,
    pub set_hop_size: bool,
    /// Step in samples between successive RMS windows.
    pub hop_size: usize,
    /// Index at which the onset search begins.
    pub start_sample: usize,
    /// How many times louder than the previous window a window must be, in thousandths.
    pub rms_factor: i32,
    /// Least RMS of an onset window, in thousandths of full scale.
    pub rms_threshold: i32,
    pub correlation_offset: usize,
    /// In thousandths.
    pub correlation_threshold: i32,
    /// In thousandths.
    pub pitch_multiplier: i32,
}

impl Default for TransientSettings {
    fn default() -> (s: Self)
        ensures
            s.rms_sample_size == 128,
            !s.use_ms_size,
            s.rms_ms_size == 20000,
            !s.set_hop_size,
            s.hop_size == 128,
            s.start_sample == 2000,
            s.rms_factor == 3000,
            s.rms_threshold == 100,
            s.correlation_offset == 1000,
            s.correlation_threshold == 850,
            s.pitch_multiplier == 8000,
    {
        TransientSettings {
            rms_sample_size: 128,
            use_ms_size: false,
            rms_ms_size: 20000,
            set_hop_size: false,
            hop_size: 128,
            start_sample: 2000,
            rms_factor: 3000,
            rms_threshold: 100,
            correlation_offset: 1000,
            correlation_threshold: 850,
            pitch_multiplier: 8000,
        }
    }
}

} // verus!
