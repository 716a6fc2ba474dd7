use vstd::prelude::*;

use crate::finders::{
    find_peak_sample, find_previous_zero, has_peak, is_crossing, lemma_peak_sample_is_first_peak,
    peak_floor, peak_key, peak_sample, previous_zero, scan_end,
};
use crate::fixed::{PARTS, spec_magnitude};
use crate::models::{AudioInfo, TransientSettings};

verus! {

// ---------------------------------------------------------------------------
// Window energies
// ---------------------------------------------------------------------------

/// Sum of the squared samples of `audio[from..to)`.
pub open spec fn energy(audio: Seq<i16>, from: int, to: int) -> int
    decreases to - from,
{
    if to <= from {
        0
    } else {
        energy(audio, from, to - 1) + audio[to - 1] * audio[to - 1]
    }
}

/// The end of an RMS window of `w` samples from `p`, cut at the end of the audio.
pub open spec fn window_end(len: int, p: int, w: int) -> int {
    if p + w < len {
        p + w
    } else {
        len
    }
}

/// Sum of the squared samples of the RMS window of `w` samples at `p`.
/// (Its RMS is `sqrt(window_energy / w)`: the sum is always divided by the
/// full window length, even where the audio ends inside the window.)
pub open spec fn window_energy(audio: Seq<i16>, p: int, w: int) -> int {
    energy(audio, p, window_end(audio.len() as int, p, w))
}

/// The square of a sample is at most the square of full scale.
proof fn lemma_square_bound(x: i16)
    ensures
        0 <= x * x <= full_scale_sq(),
{
    assert(0 <= x * x <= 32768 * 32768) by (nonlinear_arith)
        requires
            -32768 <= x <= 32767,
    ;
}

/// An energy is non-negative and at most full scale squared per sample.
proof fn lemma_energy_bounds(audio: Seq<i16>, from: int, to: int)
    requires
        0 <= from <= to <= audio.len(),
    ensures
        0 <= energy(audio, from, to) <= (to - from) * full_scale_sq(),
    decreases to - from,
{
    if to > from {
        lemma_energy_bounds(audio, from, to - 1);
        lemma_square_bound(audio[to - 1]);
    }
}

// ---------------------------------------------------------------------------
// The onset test
// ---------------------------------------------------------------------------

/// `PARTS` squared.
pub open spec fn parts_sq() -> int {
    1_000_000
}

/// `FULL_SCALE` squared.
pub open spec fn full_scale_sq() -> int {
    1_073_741_824
}

/// The reciprocal of the square of the RMS under which a window counts as
/// silent, 1e-9 of full scale.
pub open spec fn quiet_inv_sq() -> int {
    1_000_000_000_000_000_000
}

/// A window of energy `e` over `w` samples has an RMS below 1e-9 of full
/// scale: `e / (w * FULL_SCALE^2) < 1e-18`.
pub open spec fn is_quiet(e: int, w: int) -> bool {
    e * quiet_inv_sq() < w * full_scale_sq()
}

/// The RMS ratio of a window of energy `e` to the previous window, of energy
/// `prev`, exceeds `factor / PARTS`; after a silent window the ratio counts as 1.
/// A ratio is never negative, so it exceeds any negative factor.
pub open spec fn rises(e: int, prev: int, w: int, factor: int) -> bool {
    if is_quiet(prev, w) {
        PARTS > factor
    } else {
        factor < 0 || e * parts_sq() > (factor * factor) * prev
    }
}

/// The RMS of a window of energy `e` over `w` samples exceeds
/// `threshold / PARTS` of full scale. An RMS is never negative, so it
/// exceeds any negative threshold.
pub open spec fn loud(e: int, w: int, threshold: int) -> bool {
    threshold < 0 || e * parts_sq() > ((threshold * threshold) * w) * full_scale_sq()
}

/// A window of energy `e`, following one of energy `prev`, marks an onset.
/// A window of no samples has no RMS and never marks one.
pub open spec fn onset_at(e: int, prev: int, w: int, factor: int, threshold: int) -> bool {
    &&& w > 0
    &&& rises(e, prev, w, factor)
    &&& loud(e, w, threshold)
}

/// The first window position `p, p + hop, p + 2 hop, ...` before a quarter
/// of the audio that marks an onset, each window compared with the one
/// before it (`prev` for the first). With a hop that does not advance, only
/// the window at `p` is tested (the search would go on testing it for ever).
pub open spec fn onset_search(
    audio: Seq<i16>,
    w: int,
    hop: int,
    factor: int,
    threshold: int,
    p: int,
    prev: int,
) -> Option<int>
    decreases (if p < audio.len() / 4 { audio.len() / 4 - p } else { 0 }),
{
    if p >= audio.len() / 4 {
        None
    } else if onset_at(
        window_energy(audio, p, w),
        window_energy(audio, prev, w),
        w,
        factor,
        threshold,
    ) {
        Some(p)
    } else if hop <= 0 {
        None
    } else {
        onset_search(audio, w, hop, factor, threshold, p + hop, p)
    }
}

/// The onset window of a recording: the search starts at `start_sample`,
/// whose window is first compared with itself.
pub open spec fn onset(audio: Seq<i16>, w: int, settings: TransientSettings) -> Option<int> {
    onset_search(
        audio,
        w,
        settings.hop_size as int,
        settings.rms_factor as int,
        settings.rms_threshold as int,
        settings.start_sample as int,
        settings.start_sample as int,
    )
}

/// The onset search comes to an end: the hop advances, or the start lies at
/// or past a quarter of the audio, or the start window, compared with itself,
/// is an onset. Otherwise it keeps testing the start window for ever.
pub open spec fn search_ends(audio: Seq<i16>, w: int, settings: TransientSettings) -> bool {
    ||| settings.hop_size > 0
    ||| settings.start_sample >= audio.len() / 4
    ||| onset_at(
        window_energy(audio, settings.start_sample as int, w),
        window_energy(audio, settings.start_sample as int, w),
        w,
        settings.rms_factor as int,
        settings.rms_threshold as int,
    )
}

/// How many samples from the start the fallback peak search looks at.
pub open spec fn fallback_span() -> int {
    10000
}

/// The start of the transient: next to the zero crossing at or after the
/// onset window; without an onset, next to the zero crossing at or after the
/// loudest of the first `fallback_span()` samples.
pub open spec fn transient_init(audio: Seq<i16>, w: int, settings: TransientSettings) -> int {
    match onset(audio, w, settings) {
        Some(t) => previous_zero(audio, t),
        None => previous_zero(
            audio,
            peak_sample(audio, 0, scan_end(audio.len() as int, fallback_span()), true),
        ),
    }
}

/// A found onset lies in the first quarter of the audio, at the start or a
/// whole number of hops after it.
proof fn lemma_onset_search_in_range(
    audio: Seq<i16>,
    w: int,
    hop: int,
    factor: int,
    threshold: int,
    p: int,
    prev: int,
)
    ensures
        onset_search(audio, w, hop, factor, threshold, p, prev) is Some ==> {
            let t = onset_search(audio, w, hop, factor, threshold, p, prev)->0;
            &&& p <= t < audio.len() / 4
            &&& hop > 0 ==> (t - p) % hop == 0
            &&& hop <= 0 ==> t == p
        },
    decreases (if p < audio.len() / 4 { audio.len() / 4 - p } else { 0 }),
{
    if p < audio.len() / 4 {
        if onset_at(
            window_energy(audio, p, w),
            window_energy(audio, prev, w),
            w,
            factor,
            threshold,
        ) {
            if hop > 0 {
                vstd::arithmetic::div_mod::lemma_small_mod(0, hop as nat);
            }
        } else if hop > 0 {
            lemma_onset_search_in_range(audio, w, hop, factor, threshold, p + hop, p);
            let r = onset_search(audio, w, hop, factor, threshold, p + hop, p);
            if r is Some {
                let t = r->0;
                vstd::arithmetic::div_mod::lemma_mod_sub_multiples_vanish(t - p, hop);
                assert(-hop + (t - p) == t - (p + hop));
            }
        }
    }
}

/// The onset window, when there is one, starts in the first quarter of the
/// audio, at `start_sample` or a whole number of hops after it (at
/// `start_sample` itself when the hop is zero).
pub proof fn lemma_onset_in_range(audio: Seq<i16>, w: int, settings: TransientSettings)
    ensures
        onset(audio, w, settings) is Some ==> {
            let t = onset(audio, w, settings)->0;
            &&& settings.start_sample <= t < audio.len() / 4
            &&& settings.hop_size > 0 ==> (t - settings.start_sample) % (settings.hop_size as int) == 0
            &&& settings.hop_size == 0 ==> t == settings.start_sample
        },
{
    lemma_onset_search_in_range(
        audio,
        w,
        settings.hop_size as int,
        settings.rms_factor as int,
        settings.rms_threshold as int,
        settings.start_sample as int,
        settings.start_sample as int,
    );
}

// ---------------------------------------------------------------------------
// What the transient search is, stated on the samples
// ---------------------------------------------------------------------------

/// The onset test on the energies of a window (`e`) and of the window before
/// it (`prev`), both over `w` samples, in exact arithmetic: the RMS exceeds
/// `threshold` thousandths of full scale, and the RMS ratio exceeds `factor`
/// thousandths, a ratio after a window quieter than 1e-9 of full scale
/// counting as 1. A window of no samples never passes.
pub open spec fn passes_onset_test(e: int, prev: int, w: int, factor: int, threshold: int) -> bool {
    &&& w > 0
    &&& (threshold < 0 || e * 1_000_000 > threshold * threshold * w * 1_073_741_824)
    &&& if prev * 1_000_000_000_000_000_000 < w * 1_073_741_824 {
        1000 > factor
    } else {
        factor < 0 || e * 1_000_000 > factor * factor * prev
    }
}

/// `q` is a window position of the search: the start, or a whole number of
/// hops after it (only the start, with a zero hop).
pub open spec fn on_search_grid(start: int, hop: int, q: int) -> bool {
    if hop <= 0 {
        q == start
    } else {
        start <= q && (q - start) % hop == 0
    }
}

/// The window at `q` passes the onset test against the window one hop
/// before it; the start window is tested against itself.
pub open spec fn window_marks_onset(audio: Seq<i16>, w: int, settings: TransientSettings, q: int) -> bool {
    let start = settings.start_sample as int;
    let before = if q == start {
        start
    } else {
        q - settings.hop_size
    };
    passes_onset_test(
        window_energy(audio, q, w),
        window_energy(audio, before, w),
        w,
        settings.rms_factor as int,
        settings.rms_threshold as int,
    )
}

/// How many samples from the start the fallback looks at: 10000, or all of
/// a shorter recording.
pub open spec fn fallback_end(len: int) -> int {
    if len < 10000 {
        len
    } else {
        10000
    }
}

/// `r` is the first sample of largest magnitude among the first `end`
/// samples (0 when there are none).
pub open spec fn loudest_first(audio: Seq<i16>, end: int, r: int) -> bool {
    ||| end <= 0 && r == 0
    ||| {
        &&& 0 <= r < end
        &&& forall|i: int| 0 <= i < end ==> spec_magnitude(#[trigger] audio[i]) <= spec_magnitude(audio[r])
        &&& forall|i: int| 0 <= i < r ==> spec_magnitude(#[trigger] audio[i]) < spec_magnitude(audio[r])
    }
}

/// Two search positions on the same grid lie at least a hop apart.
proof fn lemma_grid_gap(start: int, hop: int, p: int, q: int)
    requires
        hop > 0,
        on_search_grid(start, hop, p),
        on_search_grid(start, hop, q),
        p < q,
    ensures
        p + hop <= q,
{
    let a = p - start;
    let b = q - start;
    vstd::arithmetic::div_mod::lemma_fundamental_div_mod(a, hop);
    vstd::arithmetic::div_mod::lemma_fundamental_div_mod(b, hop);
    let x = a / hop;
    let y = b / hop;
    assert(b >= a + hop) by (nonlinear_arith)
        requires
            a == hop * x,
            b == hop * y,
            a < b,
            hop > 0,
    ;
}

/// The search from grid position `p` (with the window before it as `prev`)
/// finds the first grid window from `p` on, before a quarter of the audio,
/// that passes the onset test; it finds none only when no such window passes.
proof fn lemma_onset_search_law(audio: Seq<i16>, w: int, settings: TransientSettings, p: int, prev: int)
    requires
        on_search_grid(settings.start_sample as int, settings.hop_size as int, p),
        prev == (if p == settings.start_sample { p } else { p - settings.hop_size }),
    ensures
        ({
            let st = settings.start_sample as int;
            let h = settings.hop_size as int;
            let n4 = audio.len() / 4;
            match onset_search(audio, w, h, settings.rms_factor as int, settings.rms_threshold as int, p, prev) {
                Some(t) => {
                    &&& p <= t < n4
                    &&& on_search_grid(st, h, t)
                    &&& window_marks_onset(audio, w, settings, t)
                    &&& forall|q: int|
                        p <= q < t && on_search_grid(st, h, q) ==> !#[trigger] window_marks_onset(audio, w, settings, q)
                },
                None => forall|q: int|
                    p <= q < n4 && on_search_grid(st, h, q) ==> !#[trigger] window_marks_onset(audio, w, settings, q),
            }
        }),
    decreases (if p < audio.len() / 4 { audio.len() / 4 - p } else { 0 }),
{
    let st = settings.start_sample as int;
    let h = settings.hop_size as int;
    let f = settings.rms_factor as int;
    let th = settings.rms_threshold as int;
    let n4 = audio.len() / 4;
    if p < n4 {
        let tested = onset_at(window_energy(audio, p, w), window_energy(audio, prev, w), w, f, th);
        assert(tested == window_marks_onset(audio, w, settings, p));
        if !tested && h > 0 {
            vstd::arithmetic::div_mod::lemma_mod_add_multiples_vanish(p - st, h);
            assert(on_search_grid(st, h, p + h));
            lemma_onset_search_law(audio, w, settings, p + h, p);
            assert forall|q: int| p < q < p + h && on_search_grid(st, h, q) implies false by {
                lemma_grid_gap(st, h, p, q);
            }
        }
    }
}

/// What `find_init` gives, over all recordings, window lengths and settings
/// under which its search ends. Window positions run from the start, one
/// hop apart, up to a quarter of the audio; each window is tested against
/// the window one hop before it (the start window against itself).
/// - If some position passes, the result is the zero-crossing search from
///   the first such position.
/// - Otherwise it is the zero-crossing search from the first sample of
///   largest magnitude among the first 10000 samples (fewer, when the audio
///   is shorter): a negative sample counts by its size.
pub proof fn lemma_transient_init_law(audio: Seq<i16>, w: int, settings: TransientSettings)
    requires
        search_ends(audio, w, settings),
    ensures
        ({
            let st = settings.start_sample as int;
            let h = settings.hop_size as int;
            let n4 = audio.len() / 4;
            let end = fallback_end(audio.len() as int);
            let init = transient_init(audio, w, settings);
            ||| exists|t: int|
                st <= t < n4 && on_search_grid(st, h, t) && #[trigger] window_marks_onset(audio, w, settings, t)
                    && (forall|q: int|
                    st <= q < t && on_search_grid(st, h, q) ==> !#[trigger] window_marks_onset(audio, w, settings, q))
                    && init == previous_zero(audio, t)
            ||| (forall|q: int|
                st <= q < n4 && on_search_grid(st, h, q) ==> !#[trigger] window_marks_onset(audio, w, settings, q))
                && exists|r: int| #[trigger] loudest_first(audio, end, r) && init == previous_zero(audio, r)
        }),
{
    let st = settings.start_sample as int;
    let h = settings.hop_size as int;
    if h > 0 {
        vstd::arithmetic::div_mod::lemma_small_mod(0, h as nat);
    }
    assert(on_search_grid(st, h, st));
    lemma_onset_search_law(audio, w, settings, st, st);
    let end = scan_end(audio.len() as int, fallback_span());
    assert(end == fallback_end(audio.len() as int));
    match onset(audio, w, settings) {
        Some(t) => {
            assert(window_marks_onset(audio, w, settings, t));
            assert(st <= t < audio.len() / 4 && on_search_grid(st, h, t));
            assert(transient_init(audio, w, settings) == previous_zero(audio, t));
        },
        None => {
            lemma_peak_sample_is_first_peak(audio, 0, end, true);
            let r = peak_sample(audio, 0, end, true);
            if end > 0 {
                assert forall|i: int| 0 <= i < end implies spec_magnitude(#[trigger] audio[i]) <= spec_magnitude(audio[r]) by {
                    if !has_peak(audio, 0, end, true) {
                        assert(!(peak_key(audio[i], true) > peak_floor(true)));
                    } else {
                        assert(peak_key(audio[i], true) <= peak_key(audio[r], true));
                    }
                }
                assert forall|i: int| 0 <= i < r implies spec_magnitude(#[trigger] audio[i]) < spec_magnitude(audio[r]) by {
                    assert(peak_key(audio[i], true) < peak_key(audio[r], true));
                }
                assert(0 <= r < end);
            }
            assert(loudest_first(audio, end, r));
            assert(transient_init(audio, w, settings) == previous_zero(audio, r));
        },
    }
}

/// A window that marks an onset still marks one under a factor and a
/// threshold no larger.
proof fn lemma_onset_at_weaker(e: int, prev: int, w: int, f: int, t: int, f2: int, t2: int)
    requires
        0 <= e,
        0 <= prev,
        f2 <= f,
        t2 <= t,
        onset_at(e, prev, w, f, t),
    ensures
        onset_at(e, prev, w, f2, t2),
{
    if 0 <= f2 {
        assert((f2 * f2) * prev <= (f * f) * prev) by (nonlinear_arith)
            requires
                0 <= f2 <= f,
                0 <= prev,
        ;
    }
    if 0 <= t2 {
        assert(((t2 * t2) * w) * full_scale_sq() <= ((t * t) * w) * full_scale_sq()) by (nonlinear_arith)
            requires
                0 <= t2 <= t,
                0 < w,
                full_scale_sq() > 0,
        ;
    }
}

/// Window energies within the audio are non-negative.
proof fn lemma_window_energy_nonneg(audio: Seq<i16>, p: int, w: int)
    requires
        0 <= p <= audio.len(),
        0 <= w,
    ensures
        0 <= window_energy(audio, p, w),
{
    lemma_energy_bounds(audio, p, window_end(audio.len() as int, p, w));
}

/// The search with the weaker factor and threshold finds an onset no later.
proof fn lemma_onset_search_weaker(
    audio: Seq<i16>,
    w: int,
    hop: int,
    f: int,
    t: int,
    f2: int,
    t2: int,
    p: int,
    prev: int,
)
    requires
        0 <= w,
        f2 <= f,
        t2 <= t,
        0 <= p,
        0 <= prev <= audio.len(),
        onset_search(audio, w, hop, f, t, p, prev) is Some,
    ensures
        onset_search(audio, w, hop, f2, t2, p, prev) is Some,
        onset_search(audio, w, hop, f2, t2, p, prev)->0 <= onset_search(audio, w, hop, f, t, p, prev)->0,
    decreases (if p < audio.len() / 4 { audio.len() / 4 - p } else { 0 }),
{
    lemma_onset_search_in_range(audio, w, hop, f, t, p, prev);
    let e = window_energy(audio, p, w);
    let ep = window_energy(audio, prev, w);
    lemma_window_energy_nonneg(audio, p, w);
    lemma_window_energy_nonneg(audio, prev, w);
    if onset_at(e, ep, w, f, t) {
        lemma_onset_at_weaker(e, ep, w, f, t, f2, t2);
    } else if !onset_at(e, ep, w, f2, t2) {
        lemma_onset_search_weaker(audio, w, hop, f, t, f2, t2, p + hop, p);
    }
}

/// Lowering the rise factor or the RMS threshold never delays the onset:
/// when the stricter settings find an onset, the laxer ones find one at the
/// same window or an earlier one.
pub proof fn lemma_laxer_settings_onset_no_later(
    audio: Seq<i16>,
    w: int,
    strict: TransientSettings,
    lax: TransientSettings,
)
    requires
        0 <= w,
        lax.start_sample == strict.start_sample,
        lax.hop_size == strict.hop_size,
        lax.rms_factor <= strict.rms_factor,
        lax.rms_threshold <= strict.rms_threshold,
        onset(audio, w, strict) is Some,
    ensures
        onset(audio, w, lax) is Some,
        onset(audio, w, lax)->0 <= onset(audio, w, strict)->0,
{
    lemma_onset_in_range(audio, w, strict);
    lemma_onset_search_weaker(
        audio,
        w,
        strict.hop_size as int,
        strict.rms_factor as int,
        strict.rms_threshold as int,
        lax.rms_factor as int,
        lax.rms_threshold as int,
        strict.start_sample as int,
        strict.start_sample as int,
    );
}

/// All samples are zero.
pub open spec fn is_silent(audio: Seq<i16>) -> bool {
    forall|k: int| 0 <= k < audio.len() ==> #[trigger] audio[k] == 0
}

/// Silence has no energy.
proof fn lemma_energy_of_silence(audio: Seq<i16>, from: int, to: int)
    requires
        is_silent(audio),
        0 <= from,
        to <= audio.len() || to <= from,
    ensures
        energy(audio, from, to) == 0,
    decreases to - from,
{
    if to > from {
        lemma_energy_of_silence(audio, from, to - 1);
        assert(audio[to - 1] == 0);
    }
}

/// No window of silence marks an onset under a threshold that is not negative.
proof fn lemma_no_onset_in_silence(
    audio: Seq<i16>,
    w: int,
    hop: int,
    factor: int,
    threshold: int,
    p: int,
    prev: int,
)
    requires
        is_silent(audio),
        0 <= p,
        0 <= prev,
        0 <= threshold,
    ensures
        onset_search(audio, w, hop, factor, threshold, p, prev) is None,
    decreases (if p < audio.len() / 4 { audio.len() / 4 - p } else { 0 }),
{
    if p < audio.len() / 4 {
        lemma_energy_of_silence(audio, p, window_end(audio.len() as int, p, w));
        if w > 0 {
            assert(((threshold * threshold) * w) * full_scale_sq() >= 0) by (nonlinear_arith)
                requires
                    w > 0,
                    full_scale_sq() > 0,
            ;
        }
        if hop > 0 {
            lemma_no_onset_in_silence(audio, w, hop, factor, threshold, p + hop, p);
        }
    }
}

/// A silent recording has its transient at the very start, under any
/// threshold that is not negative (an RMS of zero exceeds a negative one):
/// there is no onset, its loudest sample is the first, and the zero-crossing
/// search settles on 0.
pub proof fn lemma_silence_starts_at_zero(audio: Seq<i16>, w: int, settings: TransientSettings)
    requires
        is_silent(audio),
        settings.rms_threshold >= 0,
    ensures
        onset(audio, w, settings) is None,
        transient_init(audio, w, settings) == 0,
{
    lemma_no_onset_in_silence(
        audio,
        w,
        settings.hop_size as int,
        settings.rms_factor as int,
        settings.rms_threshold as int,
        settings.start_sample as int,
        settings.start_sample as int,
    );
    let end = scan_end(audio.len() as int, fallback_span());
    lemma_peak_sample_is_first_peak(audio, 0, end, true);
    assert(!has_peak(audio, 0, end, true)) by {
        assert forall|i: int| 0 <= i < end implies !(#[trigger] peak_key(audio[i], true) > peak_floor(true)) by {
            assert(audio[i] == 0);
        }
    }
    assert(peak_sample(audio, 0, end, true) == 0);
    if audio.len() > 2 {
        assert(audio[2] == 0);
        assert(is_crossing(audio, 2));
        assert(audio[0] == 0 && audio[1] == 0);
    }
}

// ---------------------------------------------------------------------------
// Executable analysis
// ---------------------------------------------------------------------------

/// Sum of the squared samples of the RMS window of `rms_size` samples at `samp`.
fn window_energy_at(audio: &Vec<i16>, samp: usize, rms_size: usize) -> (e: u128)
    requires
        samp < audio.len(),
    ensures
        e == window_energy(audio@, samp as int, rms_size as int),
        e <= audio.len() * full_scale_sq(),
{
    let ghost a = audio@;
    // The window stops where the audio ends.
    let len: usize = audio.len();
    let available: usize = len - samp;
    let mut sum: u128 = 0;
    let mut rms_samp: usize = 0;
    while rms_samp < rms_size && rms_samp < available
        invariant
            a == audio@,
            samp < a.len(),
            len == a.len(),
            available == a.len() - samp,
            rms_samp <= rms_size,
            rms_samp <= available,
            sum == energy(a, samp as int, samp + rms_samp),
            sum <= rms_samp * full_scale_sq(),
        decreases rms_size - rms_samp,
    {
        let x: i32 = audio[samp + rms_samp] as i32;
        proof {
            lemma_square_bound(audio[samp + rms_samp]);
        }
        let sq: i32 = x * x;
        sum = sum + sq as u128;
        rms_samp = rms_samp + 1;
    }
    proof {
        assert(samp + rms_samp == window_end(a.len() as int, samp as int, rms_size as int));
    }
    sum
}

/// The most any window energy can be: `usize::MAX` samples at full scale.
pub open spec fn energy_cap() -> int {
    usize::MAX * full_scale_sq()
}

/// Whether a window of energy `e` after one of energy `prev` marks an onset;
/// see `onset_at`.
fn is_onset(e: u128, prev: u128, w: usize, factor: i32, threshold: i32) -> (b: bool)
    requires
        e <= energy_cap(),
        prev <= energy_cap(),
    ensures
        b == onset_at(e as int, prev as int, w as int, factor as int, threshold as int),
{
    if w == 0 {
        return false;
    }
    let p_sq: u128 = 1_000_000;
    let fs_sq: u128 = 1_073_741_824;
    let quiet: u128 = 1_000_000_000_000_000_000;
    assert(e * 1_000_000 <= 0xffff_ffff_ffff_ffff_ffff_ffff_ffff_ffff);
    let scaled: u128 = e * p_sq;

    // Is the RMS above the threshold?
    let t: u128 = if threshold < 0 {
        0
    } else {
        threshold as u128
    };
    assert(t * t <= 0xffff_ffff * 0xffff_ffff) by (nonlinear_arith)
        requires
            t <= 0xffff_ffff,
    ;
    let t_sq: u128 = t * t;
    let is_loud: bool = if threshold < 0 {
        true
    } else {
        match t_sq.checked_mul(w as u128) {
        Some(tw) => match tw.checked_mul(fs_sq) {
            Some(bound) => scaled > bound,
            None => false,
        },
        None => {
            assert((t_sq * w) * fs_sq >= t_sq * w) by (nonlinear_arith)
                requires
                    t_sq * w >= 0,
                    fs_sq >= 1,
            ;
            false
        },
    }
    };

    // Is the window quiet?
    let wide: u128 = (w as u128) * fs_sq;
    let prev_quiet: bool = match prev.checked_mul(quiet) {
        Some(p) => p < wide,
        None => false,
    };

    // Has the RMS risen by the factor?
    let f: u128 = if factor < 0 {
        0
    } else {
        factor as u128
    };
    assert(f * f <= 0xffff_ffff * 0xffff_ffff) by (nonlinear_arith)
        requires
            f <= 0xffff_ffff,
    ;
    let f_sq: u128 = f * f;
    let has_risen: bool;
    if prev_quiet {
        has_risen = (PARTS as i32) > factor;
    } else if factor < 0 {
        has_risen = true;
    } else {
        has_risen = match f_sq.checked_mul(prev) {
            Some(bound) => scaled > bound,
            None => false,
        };
    }
    has_risen && is_loud
}

/// The length in samples of the RMS window: `rms_sample_size`, or, when
/// `use_ms_size` holds, the number of whole samples in `rms_ms_size`
/// thousandths of a millisecond at the recording's sample rate (saturating
/// at `usize::MAX`).
pub fn rms_window_size(unit: &AudioInfo, settings: &TransientSettings) -> (rms_size: usize)
    ensures
        !settings.use_ms_size ==> rms_size == settings.rms_sample_size,
        settings.use_ms_size ==> rms_size == (if settings.rms_ms_size * unit.sample_rate
            / 1_000_000 <= usize::MAX {
            settings.rms_ms_size * unit.sample_rate / 1_000_000
        } else {
            usize::MAX as int
        }),
{
    if settings.use_ms_size {
        let us: u64 = settings.rms_ms_size as u64;
        let sr: u64 = unit.sample_rate as u64;
        assert(us * sr <= 0xffff_ffff * 0xffff_ffff) by (nonlinear_arith)
            requires
                us <= 0xffff_ffff,
                sr <= 0xffff_ffff,
        ;
        let samples: u64 = us * sr / 1_000_000;
        if samples <= usize::MAX as u64 {
            samples as usize
        } else {
            usize::MAX
        }
    } else {
        settings.rms_sample_size
    }
}

/// Whether the onset search of `find_init` comes to an end (see
/// `search_ends`): with a zero hop and a start before a quarter of the audio
/// it ends only when the start window, compared with itself, is an onset.
pub fn onset_search_ends(unit: &AudioInfo, settings: &TransientSettings, rms_size: usize) -> (ends: bool)
    ensures
        ends == search_ends(unit.audio_file@, rms_size as int, *settings),
{
    let audio = &unit.audio_file;
    if settings.hop_size > 0 || settings.start_sample >= audio.len() / 4 {
        return true;
    }
    let e = window_energy_at(audio, settings.start_sample, rms_size);
    is_onset(e, e, rms_size, settings.rms_factor, settings.rms_threshold)
}

/// Finds where the transient of a recording begins.
///
/// RMS windows of `rms_size` samples are taken from `settings.start_sample`
/// on, `settings.hop_size` samples apart, up to a quarter of the audio. The
/// first window whose RMS exceeds `settings.rms_threshold` and is more than
/// `settings.rms_factor` times that of the window before it (the first window
/// is compared with itself; after a silent window the ratio counts as 1) is
/// the onset, and the result is the zero crossing found from there. Without
/// an onset, the result is the zero crossing found from the loudest of the
/// first 10000 samples. With a zero hop the start window is tested over and
/// over; the call is only made where that ends (`onset_search_ends`).
pub fn find_init(unit: &AudioInfo, settings: &TransientSettings, rms_size: usize) -> (init: usize)
    requires
        search_ends(unit.audio_file@, rms_size as int, *settings),
    ensures
        init == transient_init(unit.audio_file@, rms_size as int, *settings),
        init == 0 || init < unit.audio_file@.len(),
        ({
            let audio = unit.audio_file@;
            let w = rms_size as int;
            let st = settings.start_sample as int;
            let h = settings.hop_size as int;
            let n4 = audio.len() / 4;
            ||| exists|t: int|
                st <= t < n4 && on_search_grid(st, h, t) && #[trigger] window_marks_onset(audio, w, *settings, t)
                    && (forall|q: int|
                    st <= q < t && on_search_grid(st, h, q) ==> !#[trigger] window_marks_onset(audio, w, *settings, q))
                    && init == previous_zero(audio, t)
            ||| (forall|q: int|
                st <= q < n4 && on_search_grid(st, h, q) ==> !#[trigger] window_marks_onset(audio, w, *settings, q))
                && exists|r: int| #[trigger] loudest_first(audio, fallback_end(audio.len() as int), r) && init
                    == previous_zero(audio, r)
        }),
{
    let init = scan_init(unit, settings, rms_size);
    proof {
        lemma_transient_init_law(unit.audio_file@, rms_size as int, *settings);
    }
    init
}

/// The onset search behind `find_init`.
fn scan_init(unit: &AudioInfo, settings: &TransientSettings, rms_size: usize) -> (init: usize)
    requires
        search_ends(unit.audio_file@, rms_size as int, *settings),
    ensures
        init == transient_init(unit.audio_file@, rms_size as int, *settings),
        init == 0 || init < unit.audio_file@.len(),
{
    let audio = &unit.audio_file;
    let ghost a = audio@;
    let ghost w = rms_size as int;
    let start_sample: usize = settings.start_sample;
    let fact: i32 = settings.rms_factor;
    let thresh: i32 = settings.rms_threshold;
    let hop: usize = settings.hop_size;
    let max_samp: usize = audio.len() / 4;

    // How many window energies have been taken (counting stops at 2), and the last one.
    let mut taken: usize = 0;
    let mut last_energy: u128 = 0;
    let ghost mut prev: int = start_sample as int;
    let mut samp: usize = start_sample;

    while samp < max_samp
        invariant
            a == audio@,
            audio == &unit.audio_file,
            max_samp == a.len() / 4,
            w == rms_size as int,
            hop == settings.hop_size,
            start_sample == settings.start_sample,
            hop == 0 && samp < max_samp ==> samp == start_sample && prev == start_sample && onset_at(
                window_energy(a, start_sample as int, w),
                window_energy(a, start_sample as int, w),
                w,
                fact as int,
                thresh as int,
            ),
            fact == settings.rms_factor,
            thresh == settings.rms_threshold,
            taken <= 2,
            taken < 2 ==> samp == start_sample && prev == start_sample,
            taken >= 1 ==> last_energy == window_energy(a, prev, w),
            0 <= prev < a.len() || taken == 0,
            last_energy <= energy_cap(),
            onset(a, w, *settings) == onset_search(
                a,
                w,
                hop as int,
                fact as int,
                thresh as int,
                samp as int,
                prev,
            ),
        decreases max_samp - samp, 2 - taken,
    {
        let e = window_energy_at(audio, samp, rms_size);
        if taken < 2 {
            taken = taken + 1;
            last_energy = e;
            continue;
        }
        let triggered = is_onset(e, last_energy, rms_size, fact, thresh);
        last_energy = e;
        if triggered {
            return find_previous_zero(audio, samp);
        }
        // A hop of zero only ever reaches here when the start window is an onset.
        assert(hop > 0);
        let ghost here = samp as int;
        assert(onset_search(a, w, hop as int, fact as int, thresh as int, here, prev)
            == onset_search(a, w, hop as int, fact as int, thresh as int, here + hop, here));
        proof {
            prev = here;
        }
        // A position at or past a quarter of the audio (or past `usize::MAX`) ends the search.
        samp = match samp.checked_add(hop) {
            Some(next) => if next < max_samp {
                next
            } else {
                max_samp
            },
            None => max_samp,
        };
        assert(onset_search(a, w, hop as int, fact as int, thresh as int, samp as int, prev)
            == onset_search(a, w, hop as int, fact as int, thresh as int, prev + hop, prev));
    }
    let min_end: usize = if audio.len() < 10000 {
        audio.len()
    } else {
        10000
    };
    let peak_samp = find_peak_sample(audio, 0, min_end, true);
    find_previous_zero(audio, peak_samp)
}

} // verus!
