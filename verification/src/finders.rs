use vstd::prelude::*;

use crate::fixed::{FULL_SCALE, magnitude, spec_magnitude};

verus! {

// ---------------------------------------------------------------------------
// Peak search
// ---------------------------------------------------------------------------

/// What the peak search compares: the magnitude of a sample, or its signed value.
pub open spec fn peak_key(x: i16, use_abs: bool) -> int {
    if use_abs {
        spec_magnitude(x)
    } else {
        x as int
    }
}

/// The value a sample has to exceed to count as a peak: silence for
/// magnitudes, minus full scale for signed values.
pub open spec fn peak_floor(use_abs: bool) -> int {
    if use_abs {
        0
    } else {
        -FULL_SCALE
    }
}

/// The end of a scan asked to stop at `end_sample`: never past the audio.
pub open spec fn scan_end(len: int, end_sample: int) -> int {
    if end_sample < len {
        end_sample
    } else {
        len
    }
}

/// Some sample of `audio[start..end)` rises above the floor.
pub open spec fn has_peak(audio: Seq<i16>, start: int, end: int, use_abs: bool) -> bool {
    exists|i: int| start <= i < end && #[trigger] peak_key(audio[i], use_abs) > peak_floor(use_abs)
}

/// `r` is the first index of the largest sample of `audio[start..end)`, or
/// `start` itself when no sample there rises above the floor.
pub open spec fn is_first_peak(audio: Seq<i16>, start: int, end: int, use_abs: bool, r: int) -> bool {
    if has_peak(audio, start, end, use_abs) {
        &&& start <= r < end
        &&& forall|i: int|
            start <= i < end ==> #[trigger] peak_key(audio[i], use_abs) <= peak_key(audio[r], use_abs)
        &&& forall|i: int|
            start <= i < r ==> #[trigger] peak_key(audio[i], use_abs) < peak_key(audio[r], use_abs)
    } else {
        r == start
    }
}

/// The index that the peak search over `audio[start..end)` settles on.
pub open spec fn peak_sample(audio: Seq<i16>, start: int, end: int, use_abs: bool) -> int {
    choose|r: int| #[trigger] is_first_peak(audio, start, end, use_abs, r)
}

/// A first peak always exists.
proof fn lemma_first_peak_exists(audio: Seq<i16>, start: int, end: int, use_abs: bool)
    requires
        end <= audio.len(),
        0 <= start,
    ensures
        exists|r: int| #[trigger] is_first_peak(audio, start, end, use_abs, r),
    decreases end - start,
{
    if end <= start {
        assert(!has_peak(audio, start, end, use_abs));
        assert(is_first_peak(audio, start, end, use_abs, start));
    } else {
        lemma_first_peak_exists(audio, start, end - 1, use_abs);
        let p = choose|r: int| #[trigger] is_first_peak(audio, start, end - 1, use_abs, r);
        let last = end - 1;
        if has_peak(audio, start, end - 1, use_abs) {
            if peak_key(audio[last], use_abs) > peak_key(audio[p], use_abs) {
                assert(is_first_peak(audio, start, end, use_abs, last));
            } else {
                assert(is_first_peak(audio, start, end, use_abs, p));
            }
        } else if peak_key(audio[last], use_abs) > peak_floor(use_abs) {
            assert forall|i: int| start <= i < end implies #[trigger] peak_key(audio[i], use_abs)
                <= peak_key(audio[last], use_abs) by {
                if i < last {
                    assert(!(peak_key(audio[i], use_abs) > peak_floor(use_abs)));
                }
            }
            assert(is_first_peak(audio, start, end, use_abs, last));
        } else {
            assert forall|i: int| start <= i < end implies !(#[trigger] peak_key(audio[i], use_abs)
                > peak_floor(use_abs)) by {
                if i < last {
                    assert(!(peak_key(audio[i], use_abs) > peak_floor(use_abs)));
                }
            }
            assert(!has_peak(audio, start, end, use_abs));
            assert(is_first_peak(audio, start, end, use_abs, start));
        }
    }
}

/// The first peak of a range is unique.
pub proof fn lemma_first_peak_unique(
    audio: Seq<i16>,
    start: int,
    end: int,
    use_abs: bool,
    r1: int,
    r2: int,
)
    requires
        is_first_peak(audio, start, end, use_abs, r1),
        is_first_peak(audio, start, end, use_abs, r2),
    ensures
        r1 == r2,
{
    if has_peak(audio, start, end, use_abs) {
        if r1 < r2 {
            assert(peak_key(audio[r1], use_abs) < peak_key(audio[r2], use_abs));
            assert(peak_key(audio[r2], use_abs) <= peak_key(audio[r1], use_abs));
        } else if r2 < r1 {
            assert(peak_key(audio[r2], use_abs) < peak_key(audio[r1], use_abs));
            assert(peak_key(audio[r1], use_abs) <= peak_key(audio[r2], use_abs));
        }
    }
}

/// The peak search names exactly the first largest sample of its range.
pub proof fn lemma_peak_sample_is_first_peak(audio: Seq<i16>, start: int, end: int, use_abs: bool)
    requires
        end <= audio.len(),
        0 <= start,
    ensures
        is_first_peak(audio, start, end, use_abs, peak_sample(audio, start, end, use_abs)),
{
    lemma_first_peak_exists(audio, start, end, use_abs);
}

/// The value the largest-sample search ranks a sample by: its magnitude,
/// or its signed value.
pub open spec fn ranked_value(x: i16, use_abs: bool) -> int {
    if use_abs {
        spec_magnitude(x)
    } else {
        x as int
    }
}

/// `r` is what the largest-sample search over `audio[start..end)` gives:
/// the first index holding the largest value there, provided that value
/// exceeds `base`; otherwise `start`.
pub open spec fn largest_sample_law(audio: Seq<i16>, start: int, end: int, use_abs: bool, r: int) -> bool {
    let base = if use_abs { 0 } else { -32768 };
    ||| (r == start && forall|i: int| start <= i < end ==> #[trigger] ranked_value(audio[i], use_abs) <= base)
    ||| {
        &&& start <= r < end
        &&& ranked_value(audio[r], use_abs) > base
        &&& forall|i: int| start <= i < end ==> #[trigger] ranked_value(audio[i], use_abs) <= ranked_value(audio[r], use_abs)
        &&& forall|i: int| start <= i < r ==> #[trigger] ranked_value(audio[i], use_abs) < ranked_value(audio[r], use_abs)
    }
}

/// The end of the searched range: `end_sample`, cut at the end of the audio.
pub open spec fn clipped_end(len: int, end_sample: int) -> int {
    if end_sample < len {
        end_sample
    } else {
        len
    }
}

/// The first peak of a range is the first index holding its largest value
/// above the floor (magnitudes above silence, signed values above minus full
/// scale), or the start of the range when no value rises above it.
pub proof fn lemma_first_peak_law(audio: Seq<i16>, start: int, end: int, use_abs: bool, r: int)
    requires
        is_first_peak(audio, start, end, use_abs, r),
    ensures
        largest_sample_law(audio, start, end, use_abs, r),
{
    // Both rank a sample by the same value.
    assert forall|i: int| start <= i < end implies #[trigger] ranked_value(audio[i], use_abs) == peak_key(
        audio[i],
        use_abs,
    ) by {}
    if has_peak(audio, start, end, use_abs) {
        let w = choose|i: int| start <= i < end && #[trigger] peak_key(audio[i], use_abs) > peak_floor(use_abs);
        assert(peak_key(audio[w], use_abs) <= peak_key(audio[r], use_abs));
    } else {
        assert forall|i: int| start <= i < end implies #[trigger] ranked_value(audio[i], use_abs) <= (if use_abs { 0 } else { -32768 }) by {
            assert(!(peak_key(audio[i], use_abs) > peak_floor(use_abs)));
        }
    }
}

/// Index of the largest sample of `audio[start_sample..end_sample)`, compared
/// by magnitude when `use_abs` holds and by signed value otherwise. The first
/// of equal largest samples wins; the range is cut at the end of the audio;
/// when no sample rises above silence (or above minus full scale, for signed
/// values) the result is `start_sample`.
pub fn find_peak_sample(audio: &Vec<i16>, start_sample: usize, end_sample: usize, use_abs: bool) -> (peak: usize)
    ensures
        peak == peak_sample(
            audio@,
            start_sample as int,
            scan_end(audio.len() as int, end_sample as int),
            use_abs,
        ),
        is_first_peak(
            audio@,
            start_sample as int,
            scan_end(audio.len() as int, end_sample as int),
            use_abs,
            peak as int,
        ),
        largest_sample_law(
            audio@,
            start_sample as int,
            clipped_end(audio.len() as int, end_sample as int),
            use_abs,
            peak as int,
        ),
{
    let ghost a = audio@;
    let mut peak_samp: usize = start_sample;
    let mut peak_val: i32;
    if use_abs {
        peak_val = 0;
    } else {
        peak_val = -FULL_SCALE;
    }
    let end: usize;
    let start: usize;

    if end_sample < audio.len() {
        end = end_sample;
    } else {
        end = audio.len();
    }
    if start_sample > 0 {
        start = start_sample;
    } else {
        start = 0;
    }

    let mut samp: usize = start;
    while samp < end
        invariant
            a == audio@,
            end as int == scan_end(a.len() as int, end_sample as int),
            start == start_sample,
            start <= samp,
            samp <= end || samp == start,
            peak_val >= peak_floor(use_abs),
            forall|i: int| start <= i < samp ==> #[trigger] peak_key(a[i], use_abs) <= peak_val,
            peak_val == peak_floor(use_abs) ==> peak_samp == start,
            peak_val > peak_floor(use_abs) ==> {
                &&& start <= peak_samp < samp
                &&& peak_key(a[peak_samp as int], use_abs) == peak_val
                &&& forall|i: int|
                    start <= i < peak_samp ==> #[trigger] peak_key(a[i], use_abs) < peak_val
            },
        decreases end - samp,
    {
        let key: i32;
        if use_abs {
            key = magnitude(audio[samp]);
        } else {
            key = audio[samp] as i32;
        }
        if key > peak_val {
            peak_val = key;
            peak_samp = samp;
        }
        samp = samp + 1;
    }
    proof {
        let e = end as int;
        let s = start as int;
        if has_peak(a, s, e, use_abs) {
            let w = choose|i: int| s <= i < e && #[trigger] peak_key(a[i], use_abs) > peak_floor(use_abs);
            assert(peak_key(a[w], use_abs) <= peak_val);
        } else if peak_val > peak_floor(use_abs) {
            assert(peak_key(a[peak_samp as int], use_abs) > peak_floor(use_abs));
        }
        assert(is_first_peak(a, s, e, use_abs, peak_samp as int));
        lemma_peak_sample_is_first_peak(a, s, e, use_abs);
        lemma_first_peak_unique(a, s, e, use_abs, peak_samp as int, peak_sample(a, s, e, use_abs));
        lemma_first_peak_law(a, s, e, use_abs, peak_samp as int);
    }
    peak_samp
}

// ---------------------------------------------------------------------------
// Zero-crossing search
// ---------------------------------------------------------------------------

/// A zero crossing ends at `i`: the sample two steps back was at or below
/// zero and `audio[i]` is at or above it, or `audio[i]` is zero itself.
pub open spec fn is_crossing(audio: Seq<i16>, i: int) -> bool {
    (audio[i] >= 0 && audio[i - 2] <= 0) || (audio[i] <= 0 && audio[i] >= 0)
}

/// The first index at or after `i` where a zero crossing ends, or the length
/// of the audio when there is none.
pub open spec fn first_crossing(audio: Seq<i16>, i: int) -> int
    decreases audio.len() - i,
{
    if i >= audio.len() {
        audio.len() as int
    } else if is_crossing(audio, i) {
        i
    } else {
        first_crossing(audio, i + 1)
    }
}

/// Of the two samples before `i`, the one closer to zero (the earlier one on a tie).
pub open spec fn quieter_before(audio: Seq<i16>, i: int) -> int {
    if spec_magnitude(audio[i - 2]) <= spec_magnitude(audio[i - 1]) {
        i - 2
    } else {
        i - 1
    }
}

/// Where the search for a zero crossing from `start_sample` settles: next to
/// the first crossing that ends at or after `max(start_sample, 2)`, on the
/// quieter of the two samples before it; 0 when there is no such crossing.
pub open spec fn previous_zero(audio: Seq<i16>, start_sample: int) -> int {
    let start = if start_sample > 2 { start_sample } else { 2 };
    let c = first_crossing(audio, start);
    if c < audio.len() {
        quieter_before(audio, c)
    } else {
        0
    }
}

/// The crossing found from `i` is the first one: it lies at or after `i`,
/// within the audio (or is its length when there is none), and no crossing
/// ends between `i` and it.
proof fn lemma_first_crossing_is_first(audio: Seq<i16>, i: int)
    requires
        2 <= i,
    ensures
        first_crossing(audio, i) <= audio.len(),
        i <= first_crossing(audio, i) || first_crossing(audio, i) == audio.len(),
        first_crossing(audio, i) < audio.len() ==> is_crossing(audio, first_crossing(audio, i)),
        forall|j: int| i <= j < first_crossing(audio, i) ==> !#[trigger] is_crossing(audio, j),
    decreases audio.len() - i,
{
    if i < audio.len() && !is_crossing(audio, i) {
        lemma_first_crossing_is_first(audio, i + 1);
    }
}

/// The zero-crossing search settles right before the first crossing at or
/// after its start (`max(start_sample, 2)`), on one of the two samples that
/// precede it; when the audio holds no crossing from there on, it settles on 0.
pub proof fn lemma_previous_zero_before_crossing(audio: Seq<i16>, start_sample: int)
    ensures
        ({
            let start = if start_sample > 2 { start_sample } else { 2 };
            let c = first_crossing(audio, start);
            &&& forall|j: int| start <= j < c ==> !#[trigger] is_crossing(audio, j)
            &&& c < audio.len() ==> {
                &&& start <= c
                &&& is_crossing(audio, c)
                &&& previous_zero(audio, start_sample) == c - 2 || previous_zero(audio, start_sample) == c - 1
            }
            &&& c >= audio.len() ==> previous_zero(audio, start_sample) == 0
        }),
{
    let start = if start_sample > 2 { start_sample } else { 2 };
    lemma_first_crossing_is_first(audio, start);
}

/// The signal reaches zero at `i`: `audio[i]` is at or above zero while
/// the sample two steps back, `audio[i - 2]`, is at or below it; or
/// `audio[i]` is zero.
pub open spec fn reaches_zero(audio: Seq<i16>, i: int) -> bool {
    ||| audio[i] >= 0 && audio[i - 2] <= 0
    ||| audio[i] == 0
}

/// What the zero-crossing search gives, over all inputs: it stops at the
/// first index `i >= max(start_sample, 2)` where `audio[i] >= 0` follows
/// `audio[i - 2] <= 0` two samples back, or where `audio[i]` is zero, and
/// gives `i - 2` or `i - 1`, whichever sample is closer to zero (the earlier
/// on a tie); when no index qualifies it gives 0.
pub proof fn lemma_previous_zero_law(audio: Seq<i16>, start_sample: int)
    ensures
        ({
            let st = if start_sample > 2 { start_sample } else { 2 };
            let r = previous_zero(audio, start_sample);
            ||| (r == 0 && forall|i: int|
                st <= i < audio.len() ==> !#[trigger] reaches_zero(audio, i))
            ||| exists|i: int|
                st <= i < audio.len() && #[trigger] reaches_zero(audio, i) && (forall|j: int|
                    st <= j < i ==> !#[trigger] reaches_zero(audio, j))
                    && r == (if spec_magnitude(audio[i - 2]) <= spec_magnitude(audio[i - 1]) {
                    i - 2
                } else {
                    i - 1
                })
        }),
{
    let st = if start_sample > 2 { start_sample } else { 2 };
    lemma_first_crossing_is_first(audio, st);
    let c = first_crossing(audio, st);
    assert forall|j: int| st <= j < c implies !#[trigger] reaches_zero(audio, j) by {
        assert(!is_crossing(audio, j));
    }
    if c < audio.len() {
        assert(is_crossing(audio, c));
        assert(reaches_zero(audio, c));
    }
}

/// The scan behind `find_previous_zero`.
fn scan_previous_zero(audio: &Vec<i16>, start_sample: usize) -> (zero: usize)
    ensures
        zero == previous_zero(audio@, start_sample as int),
        zero == 0 || zero < audio.len(),
{
    proof {
        lemma_previous_zero_before_crossing(audio@, start_sample as int);
    }
    let ghost a = audio@;
    let mut zero_sample: usize = 0;
    let start: usize;
    if start_sample > 2 {
        start = start_sample;
    } else {
        start = 2;
    }
    let mut i: usize = start;
    while i < audio.len()
        invariant
            a == audio@,
            2 <= start <= i || (start > audio.len() && i == start),
            start == (if start_sample > 2 { start_sample } else { 2 }),
            first_crossing(a, start as int) == first_crossing(a, i as int),
            zero_sample == 0,
        decreases audio.len() - i,
    {
        let zero_found: bool = (audio[i] >= 0 && audio[i - 2] <= 0) || (audio[i] <= 0
            && audio[i] >= 0);
        if zero_found {
            if magnitude(audio[i - 2]) <= magnitude(audio[i - 1]) {
                zero_sample = i - 2;
            } else {
                zero_sample = i - 1;
            }
            return zero_sample;
        }
        i = i + 1;
    }
    zero_sample
}


/// Searches forward from `start_sample` (but not before index 2) for the
/// first zero crossing, and returns whichever of the two samples before it is
/// closer to zero; returns 0 when the audio holds no such crossing.
pub fn find_previous_zero(audio: &Vec<i16>, start_sample: usize) -> (zero: usize)
    ensures
        zero == previous_zero(audio@, start_sample as int),
        zero == 0 || zero < audio.len(),
        ({
            let st = if start_sample > 2 { start_sample as int } else { 2 };
            let a = audio@;
            ||| (zero == 0 && forall|i: int| st <= i < a.len() ==> !#[trigger] reaches_zero(a, i))
            ||| exists|i: int|
                st <= i < a.len() && #[trigger] reaches_zero(a, i) && (forall|j: int|
                    st <= j < i ==> !#[trigger] reaches_zero(a, j)) && zero == (if spec_magnitude(a[i - 2])
                    <= spec_magnitude(a[i - 1]) {
                    i - 2
                } else {
                    i - 1
                })
        }),
{
    let zero = scan_previous_zero(audio, start_sample);
    proof {
        lemma_previous_zero_law(audio@, start_sample as int);
    }
    zero
}

} // verus!
