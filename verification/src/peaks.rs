//! Peak picking over spectral profiles.
//!
//! A profile is a sequence of keys: integers ordered as the non-negative
//! quantities (energies, amplitudes) they stand for, with key 0 standing for
//! zero. Only their order matters.

use vstd::prelude::*;

verus! {

// ---------------------------------------------------------------------------
// Peak picking with neighbour suppression
// ---------------------------------------------------------------------------

/// How many neighbours on each side of a picked peak are silenced.
pub const SUPPRESSION_WIDTH: usize = 50;

/// Index of the last largest key among the first `n` keys of `s`.
pub open spec fn last_max_upto(s: Seq<u32>, n: int) -> int
    decreases n,
{
    if n <= 1 {
        0
    } else {
        let m = last_max_upto(s, n - 1);
        if s[n - 1] >= s[m] {
            n - 1
        } else {
            m
        }
    }
}

/// Index of the last largest key of `s`.
pub open spec fn last_max(s: Seq<u32>) -> int {
    last_max_upto(s, s.len() as int)
}

/// The first index silenced around a peak at `i`.
pub open spec fn suppress_lo(i: int) -> int {
    if i >= SUPPRESSION_WIDTH {
        i - SUPPRESSION_WIDTH
    } else {
        0
    }
}

/// One past the last index silenced around a peak at `i`.
pub open spec fn suppress_hi(len: int, i: int) -> int {
    if i + SUPPRESSION_WIDTH < len {
        i + SUPPRESSION_WIDTH
    } else {
        len
    }
}

/// `s` with the keys of `suppress_lo(i)..suppress_hi(i)` set to zero.
pub open spec fn suppress(s: Seq<u32>, i: int) -> Seq<u32> {
    Seq::new(
        s.len(),
        |k: int|
            if suppress_lo(i) <= k < suppress_hi(s.len() as int, i) {
                0u32
            } else {
                s[k]
            },
    )
}

/// The peaks picked from `s`, in the order they are picked: up to `count`
/// times, the last largest key is taken unless it is below `floor`, and its
/// neighbourhood is silenced before the next pick.
pub open spec fn picks(s: Seq<u32>, floor: u32, count: nat) -> Seq<int>
    decreases count,
{
    if count == 0 || s.len() == 0 {
        Seq::empty()
    } else {
        let i = last_max(s);
        if s[i] < floor {
            Seq::empty()
        } else {
            seq![i].add(picks(suppress(s, i), floor, (count - 1) as nat))
        }
    }
}

/// The last largest key lies within the range and no key beats it; no later key equals it.
proof fn lemma_last_max_upto(s: Seq<u32>, n: int)
    requires
        1 <= n <= s.len(),
    ensures
        0 <= last_max_upto(s, n) < n,
        forall|k: int| 0 <= k < n ==> #[trigger] s[k] <= s[last_max_upto(s, n)],
        forall|k: int| last_max_upto(s, n) < k < n ==> #[trigger] s[k] < s[last_max_upto(s, n)],
    decreases n,
{
    if n > 1 {
        lemma_last_max_upto(s, n - 1);
    }
}

/// Picks every peak above `floor`, up to `count`, keeping `SUPPRESSION_WIDTH`
/// neighbours on each side of a picked peak from being picked after it.
/// Returns the picked indices in the order they were picked.
pub fn pick_peaks(profile: &Vec<u32>, floor: u32, count: usize) -> (peaks: Vec<usize>)
    ensures
        peaks@.map_values(|p: usize| p as int) == picks(profile@, floor, count as nat),
        picks_law(profile@, floor, count as nat, peaks@.map_values(|p: usize| p as int)),
{
    let peaks = pick_peaks_scan(profile, floor, count);
    proof {
        lemma_picks_law(profile@, floor, count as nat);
    }
    peaks
}

/// The greedy scan behind `pick_peaks`.
fn pick_peaks_scan(profile: &Vec<u32>, floor: u32, count: usize) -> (peaks: Vec<usize>)
    ensures
        peaks@.map_values(|p: usize| p as int) == picks(profile@, floor, count as nat),
{
    let mut energy: Vec<u32> = profile.clone();
    let mut winners: Vec<usize> = Vec::new();
    let ghost target = picks(profile@, floor, count as nat);
    assert(energy@ == profile@);
    let mut k: usize = 0;
    while k < count
        invariant
            k <= count,
            energy@.len() == profile@.len(),
            target == picks(profile@, floor, count as nat),
            winners@.map_values(|p: usize| p as int) + picks(
                energy@,
                floor,
                (count - k) as nat,
            ) == target,
        decreases count - k,
    {
        if energy.len() == 0 {
            assert(picks(energy@, floor, (count - k) as nat) == Seq::<int>::empty());
            assert(winners@.map_values(|p: usize| p as int) + Seq::<int>::empty()
                =~= winners@.map_values(|p: usize| p as int));
            return winners;
        }
        // The last largest key.

        let n = energy.len();
        let mut idx: usize = 0;
        let mut j: usize = 1;
        while j < n
            invariant
                n == energy@.len(),
                1 <= j <= n,
                idx == last_max_upto(energy@, j as int),
                0 <= idx < j,
            decreases n - j,
        {
            proof {
                lemma_last_max_upto(energy@, j as int);
            }
            if energy[j] >= energy[idx] {
                idx = j;
            }
            j = j + 1;
        }
        let max_val = energy[idx];
        let ghost before = energy@;
        if max_val < floor {
            assert(picks(before, floor, (count - k) as nat) == Seq::<int>::empty());
            assert(winners@.map_values(|p: usize| p as int) + Seq::<int>::empty()
                =~= winners@.map_values(|p: usize| p as int));
            return winners;
        }
        let ghost old_winners = winners@;
        winners.push(idx);

        // Silence the neighbourhood.
        let start: usize = if idx >= SUPPRESSION_WIDTH {
            idx - SUPPRESSION_WIDTH
        } else {
            0
        };
        let end: usize = if n >= SUPPRESSION_WIDTH && idx < n - SUPPRESSION_WIDTH {
            idx + SUPPRESSION_WIDTH
        } else {
            n
        };
        assert(start == suppress_lo(idx as int));
        assert(end == suppress_hi(n as int, idx as int));
        let mut m: usize = start;
        while m < end
            invariant
                start <= m <= end,
                end <= n,
                n == energy@.len(),
                before.len() == n,
                start == suppress_lo(idx as int),
                end == suppress_hi(n as int, idx as int),
                forall|q: int|
                    0 <= q < n ==> #[trigger] energy@[q] == (if start <= q < m {
                        0u32
                    } else {
                        before[q]
                    }),
            decreases end - m,
        {
            energy.set(m, 0);
            m = m + 1;
        }
        assert(energy@ =~= suppress(before, idx as int));
        assert(winners@.map_values(|p: usize| p as int) =~= old_winners.map_values(
            |p: usize| p as int,
        ).push(idx as int));
        assert(picks(before, floor, (count - k) as nat) == seq![idx as int].add(
            picks(suppress(before, idx as int), floor, (count - k - 1) as nat),
        ));
        assert(old_winners.map_values(|p: usize| p as int) + picks(before, floor, (count - k) as nat)
            =~= winners@.map_values(|p: usize| p as int) + picks(
            energy@,
            floor,
            (count - (k + 1)) as nat,
        ));
        k = k + 1;
    }
    assert(picks(energy@, floor, 0) == Seq::<int>::empty());
    assert(winners@.map_values(|p: usize| p as int) + Seq::<int>::empty()
        =~= winners@.map_values(|p: usize| p as int));
    winners
}

// ---------------------------------------------------------------------------
// What the peak picking is, stated on the profile
// ---------------------------------------------------------------------------

/// Bin `q` lies in the stretch a pick at `i` silences: from
/// `SUPPRESSION_WIDTH` bins before `i` up to, but not including,
/// `SUPPRESSION_WIDTH` bins after it.
pub open spec fn silenced_by(q: int, i: int) -> bool {
    i - SUPPRESSION_WIDTH <= q < i + SUPPRESSION_WIDTH
}

/// The key of bin `q` once the first `k` picks of `r` have been made: zero
/// if one of them silenced it, its own key otherwise.
pub open spec fn remaining_key(s: Seq<u32>, r: Seq<int>, k: int, q: int) -> int {
    if exists|j: int| 0 <= j < k && #[trigger] silenced_by(q, r[j]) {
        0
    } else {
        s[q] as int
    }
}

/// `r` is what picking up to `count` peaks from `s` above `floor` gives:
/// each pick is the last bin holding the largest remaining key, at least
/// `floor`; the picking stops early only when every remaining key is below
/// `floor` (or the profile is empty).
pub open spec fn picks_law(s: Seq<u32>, floor: u32, count: nat, r: Seq<int>) -> bool {
    &&& r.len() <= count
    &&& forall|k: int|
        0 <= k < r.len() ==> {
            &&& 0 <= #[trigger] r[k] < s.len()
            &&& remaining_key(s, r, k, r[k]) >= floor
            &&& forall|q: int| 0 <= q < s.len() ==> #[trigger] remaining_key(s, r, k, q) <= remaining_key(s, r, k, r[k])
            &&& forall|q: int| r[k] < q < s.len() ==> #[trigger] remaining_key(s, r, k, q) < remaining_key(s, r, k, r[k])
        }
    &&& r.len() < count ==> forall|q: int| 0 <= q < s.len() ==> #[trigger] remaining_key(s, r, r.len() as int, q) < floor
}

/// Silencing around `i` and then making the picks `rest` leaves every bin
/// with the key it has after the picks `[i] + rest`.
proof fn lemma_remaining_after_suppress(s: Seq<u32>, i: int, rest: Seq<int>, k: int, q: int)
    requires
        0 <= q < s.len(),
        0 <= k <= rest.len(),
    ensures
        remaining_key(suppress(s, i), rest, k, q) == remaining_key(s, seq![i] + rest, k + 1, q),
{
    let r = seq![i] + rest;
    let t = suppress(s, i);
    assert(r[0] == i);
    assert forall|j: int| 0 <= j < k implies #[trigger] r[j + 1] == rest[j] by {}
    if exists|j: int| 0 <= j < k && #[trigger] silenced_by(q, rest[j]) {
        let j = choose|j: int| 0 <= j < k && #[trigger] silenced_by(q, rest[j]);
        assert(silenced_by(q, r[j + 1]));
    } else if silenced_by(q, i) {
        assert(silenced_by(q, r[0]));
        assert(t[q] == 0);
    } else {
        assert forall|j: int| 0 <= j < k + 1 implies !#[trigger] silenced_by(q, r[j]) by {
            if j > 0 {
                assert(r[j] == rest[j - 1]);
            }
        }
        assert(t[q] == s[q]);
    }
}

/// Picking peaks does what `picks_law` says, over every profile, floor and count.
pub proof fn lemma_picks_law(s: Seq<u32>, floor: u32, count: nat)
    ensures
        picks_law(s, floor, count, picks(s, floor, count)),
    decreases count,
{
    let r = picks(s, floor, count);
    if count == 0 || s.len() == 0 {
        assert(r.len() == 0);
    } else {
        let i = last_max(s);
        lemma_last_max_upto(s, s.len() as int);
        assert forall|q: int| 0 <= q < s.len() implies #[trigger] remaining_key(s, r, 0, q) == s[q] by {}
        if s[i] < floor {
            assert(r.len() == 0);
            assert forall|q: int| 0 <= q < s.len() implies #[trigger] remaining_key(s, r, r.len() as int, q)
                < floor by {
                assert(remaining_key(s, r, 0, q) == s[q]);
            }
        } else {
            let t = suppress(s, i);
            let rest = picks(t, floor, (count - 1) as nat);
            lemma_picks_law(t, floor, (count - 1) as nat);
            assert(r == seq![i] + rest);
            assert forall|k: int, q: int| 0 <= k <= rest.len() && 0 <= q < s.len() implies
                #[trigger] remaining_key(s, r, k + 1, q) == remaining_key(t, rest, k, q) by {
                lemma_remaining_after_suppress(s, i, rest, k, q);
            }
            assert forall|k: int| 0 <= k < r.len() implies {
                &&& 0 <= #[trigger] r[k] < s.len()
                &&& remaining_key(s, r, k, r[k]) >= floor
                &&& forall|q: int| 0 <= q < s.len() ==> #[trigger] remaining_key(s, r, k, q) <= remaining_key(s, r, k, r[k])
                &&& forall|q: int| r[k] < q < s.len() ==> #[trigger] remaining_key(s, r, k, q) < remaining_key(s, r, k, r[k])
            } by {
                if k == 0 {
                    assert(r[0] == i);
                    assert(remaining_key(s, r, 0, i) == s[i]);
                    assert forall|q: int| 0 <= q < s.len() implies #[trigger] remaining_key(s, r, k, q)
                        <= remaining_key(s, r, k, r[k]) by {
                        assert(remaining_key(s, r, 0, q) == s[q]);
                    }
                    assert forall|q: int| r[k] < q < s.len() implies #[trigger] remaining_key(s, r, k, q)
                        < remaining_key(s, r, k, r[k]) by {
                        assert(remaining_key(s, r, 0, q) == s[q]);
                    }
                } else {
                    let k0 = k - 1;
                    assert(r[k] == rest[k0]);
                    assert(0 <= rest[k0] < t.len());
                    lemma_remaining_after_suppress(s, i, rest, k0, rest[k0]);
                    assert forall|q: int| 0 <= q < s.len() implies #[trigger] remaining_key(s, r, k, q)
                        <= remaining_key(s, r, k, r[k]) by {
                        lemma_remaining_after_suppress(s, i, rest, k0, q);
                        assert(remaining_key(t, rest, k0, q) <= remaining_key(t, rest, k0, rest[k0]));
                    }
                    assert forall|q: int| r[k] < q < s.len() implies #[trigger] remaining_key(s, r, k, q)
                        < remaining_key(s, r, k, r[k]) by {
                        lemma_remaining_after_suppress(s, i, rest, k0, q);
                        assert(remaining_key(t, rest, k0, q) < remaining_key(t, rest, k0, rest[k0]));
                    }
                }
            }
            if r.len() < count {
                assert forall|q: int| 0 <= q < s.len() implies #[trigger] remaining_key(s, r, r.len() as int, q)
                    < floor by {
                    lemma_remaining_after_suppress(s, i, rest, rest.len() as int, q);
                }
            }
        }
    }
}

// ---------------------------------------------------------------------------
// What the candidate ranking is, stated on the amplitudes
// ---------------------------------------------------------------------------

/// Bin `i` lies strictly inside the spectrum (neither the first bin nor the
/// last) and is louder than both its neighbours.
pub open spec fn louder_than_neighbours(a: Seq<u32>, i: int) -> bool {
    &&& 0 < i
    &&& i + 1 < a.len()
    &&& a[i - 1] < a[i]
    &&& a[i + 1] < a[i]
}

/// The listed bins are exactly the interior bins louder than both
/// neighbours, each once, louder bins first and equally loud ones by bin.
pub open spec fn candidates_law(a: Seq<u32>, r: Seq<int>) -> bool {
    &&& forall|k: int| 0 <= k < r.len() ==> louder_than_neighbours(a, #[trigger] r[k])
    &&& forall|i: int| #[trigger] louder_than_neighbours(a, i) ==> exists|k: int| 0 <= k < r.len() && r[k] == i
    &&& forall|k: int, l: int|
        0 <= k < l < r.len() ==> {
            ||| a[#[trigger] r[k]] > a[#[trigger] r[l]]
            ||| (a[r[k]] == a[r[l]] && r[k] < r[l])
        }
}

/// A ranking of the overtone candidates lists exactly the interior bins
/// louder than both neighbours (never the first or the last bin), loudest
/// first and, among equally loud ones, by bin.
pub proof fn lemma_candidates_law(a: Seq<u32>, r: Seq<int>)
    requires
        is_peak_ranking(a, r),
    ensures
        candidates_law(a, r),
{
    assert forall|k: int| 0 <= k < r.len() implies louder_than_neighbours(a, #[trigger] r[k]) by {
        assert(is_local_peak(a, r[k]));
    }
    assert forall|i: int| #[trigger] louder_than_neighbours(a, i) implies exists|k: int|
        0 <= k < r.len() && r[k] == i by {
        assert(is_local_peak(a, i));
        assert(r.contains(i));
    }
    assert forall|k: int, l: int| 0 <= k < l < r.len() implies {
        ||| a[#[trigger] r[k]] > a[#[trigger] r[l]]
        ||| (a[r[k]] == a[r[l]] && r[k] < r[l])
    } by {
        assert(ranks_before(a, r[k], r[l]));
    }
}

// ---------------------------------------------------------------------------
// Overtone candidates
// ---------------------------------------------------------------------------

/// Bin `i` is a strict local maximum of the amplitudes `a`, away from both ends.
pub open spec fn is_local_peak(a: Seq<u32>, i: int) -> bool {
    &&& 1 <= i < a.len() - 1
    &&& a[i] > a[i - 1]
    &&& a[i] > a[i + 1]
}

/// Bin `i` ranks before bin `j`: it is louder, or as loud and earlier.
pub open spec fn ranks_before(a: Seq<u32>, i: int, j: int) -> bool {
    a[i] > a[j] || (a[i] == a[j] && i < j)
}

/// `r` lists every local peak of `a` exactly once, loudest first, peaks of
/// equal amplitude in the order of their bins.
pub open spec fn is_peak_ranking(a: Seq<u32>, r: Seq<int>) -> bool {
    &&& forall|k: int| 0 <= k < r.len() ==> is_local_peak(a, #[trigger] r[k])
    &&& forall|i: int| #[trigger] is_local_peak(a, i) ==> r.contains(i)
    &&& forall|k: int, l: int| 0 <= k < l < r.len() ==> ranks_before(a, #[trigger] r[k], #[trigger] r[l])
}

/// The local peaks of an amplitude spectrum, loudest first; peaks of equal
/// amplitude keep the order of their bins.
pub fn overtone_candidates(amps: &Vec<u32>) -> (ranked: Vec<usize>)
    requires
        amps@.len() > 0,
    ensures
        is_peak_ranking(amps@, ranked@.map_values(|p: usize| p as int)),
        candidates_law(amps@, ranked@.map_values(|p: usize| p as int)),
{
    let ghost a = amps@;
    let num_bins: usize = amps.len();
    let mut ranked: Vec<usize> = Vec::new();
    let mut i: usize = 1;
    while i < num_bins - 1
        invariant
            a == amps@,
            num_bins == a.len(),
            num_bins >= 1,
            1 <= i,
            i <= num_bins - 1 || i == 1,
            forall|k: int| 0 <= k < ranked@.len() ==> is_local_peak(a, #[trigger] ranked@[k] as int),
            forall|k: int| 0 <= k < ranked@.len() ==> #[trigger] ranked@[k] < i,
            forall|q: int| 1 <= q < i && #[trigger] is_local_peak(a, q) ==> exists|k: int|
                0 <= k < ranked@.len() && ranked@[k] == q,
            forall|k: int, l: int|
                0 <= k < l < ranked@.len() ==> ranks_before(
                    a,
                    #[trigger] ranked@[k] as int,
                    #[trigger] ranked@[l] as int,
                ),
        decreases num_bins - i,
    {
        if amps[i] > amps[i - 1] && amps[i] > amps[i + 1] {
            // Place the peak after every ranked peak at least as loud.
            let amp = amps[i];
            let mut pos: usize = 0;
            while pos < ranked.len() && amps[ranked[pos]] >= amp
                invariant
                    a == amps@,
                    amp == a[i as int],
                    pos <= ranked@.len(),
                    forall|k: int| 0 <= k < ranked@.len() ==> is_local_peak(a, #[trigger] ranked@[k] as int),
                    forall|k: int| 0 <= k < pos ==> a[#[trigger] ranked@[k] as int] >= amp,
                decreases ranked@.len() - pos,
            {
                pos = pos + 1;
            }
            let ghost old_ranked = ranked@;
            ranked.insert(pos, i);
            assert forall|k: int, l: int|
                0 <= k < l < ranked@.len() implies ranks_before(
                a,
                #[trigger] ranked@[k] as int,
                #[trigger] ranked@[l] as int,
            ) by {
                if l < pos {
                    assert(ranked@[k] == old_ranked[k] && ranked@[l] == old_ranked[l]);
                } else if l == pos {
                    assert(ranked@[k] == old_ranked[k]);
                    assert(a[old_ranked[k] as int] >= amp);
                } else if k == pos {
                    assert(ranked@[l] == old_ranked[l - 1]);
                    assert(pos < old_ranked.len());
                    assert(ranks_before(a, old_ranked[pos as int] as int, old_ranked[l - 1] as int)
                        || pos == l - 1);
                    assert(a[old_ranked[pos as int] as int] < amp);
                } else if k < pos {
                    assert(ranked@[k] == old_ranked[k] && ranked@[l] == old_ranked[l - 1]);
                } else {
                    assert(ranked@[k] == old_ranked[k - 1] && ranked@[l] == old_ranked[l - 1]);
                }
            }
            assert forall|q: int| 1 <= q < i + 1 && #[trigger] is_local_peak(a, q) implies exists|k: int|
                0 <= k < ranked@.len() && ranked@[k] == q by {
                if q == i {
                    assert(ranked@[pos as int] == q);
                } else {
                    let k0 = choose|k: int| 0 <= k < old_ranked.len() && old_ranked[k] == q;
                    if k0 < pos {
                        assert(ranked@[k0] == q);
                    } else {
                        assert(ranked@[k0 + 1] == q);
                    }
                }
            }
        }
        i = i + 1;
    }
    proof {
        let r = ranked@.map_values(|p: usize| p as int);
        assert forall|q: int| #[trigger] is_local_peak(a, q) implies r.contains(q) by {
            let k = choose|k: int| 0 <= k < ranked@.len() && ranked@[k] == q;
            assert(r[k] == q);
        }
        lemma_candidates_law(a, r);
    }
    ranked
}

// ---------------------------------------------------------------------------
// Laws
// ---------------------------------------------------------------------------

/// Every key of a silenced profile is at most the key it replaced.
proof fn lemma_suppress_keeps_or_zeroes(s: Seq<u32>, i: int, q: int)
    requires
        0 <= q < s.len(),
    ensures
        suppress(s, i)[q] == s[q] || suppress(s, i)[q] == 0,
        suppress_lo(i) <= q < suppress_hi(s.len() as int, i) ==> suppress(s, i)[q] == 0,
{
}

/// Every pick is an index of the profile whose key there is at least `floor`
/// (and was never silenced before it was picked, when `floor` is positive).
proof fn lemma_picks_in_profile(s: Seq<u32>, floor: u32, count: nat)
    ensures
        picks(s, floor, count).len() <= count,
        forall|k: int|
            0 <= k < picks(s, floor, count).len() ==> {
                &&& 0 <= #[trigger] picks(s, floor, count)[k] < s.len()
                &&& (floor > 0 ==> s[picks(s, floor, count)[k]] >= floor)
            },
    decreases count,
{
    if count > 0 && s.len() > 0 {
        let i = last_max(s);
        lemma_last_max_upto(s, s.len() as int);
        if s[i] >= floor {
            let t = suppress(s, i);
            lemma_picks_in_profile(t, floor, (count - 1) as nat);
            let rest = picks(t, floor, (count - 1) as nat);
            assert forall|k: int| 0 <= k < picks(s, floor, count).len() implies {
                &&& 0 <= #[trigger] picks(s, floor, count)[k] < s.len()
                &&& (floor > 0 ==> s[picks(s, floor, count)[k]] >= floor)
            } by {
                if k > 0 {
                    assert(picks(s, floor, count)[k] == rest[k - 1]);
                    lemma_suppress_keeps_or_zeroes(s, i, rest[k - 1]);
                }
            }
        }
    }
}

/// With a positive floor, any two picked peaks lie at least
/// `SUPPRESSION_WIDTH` bins apart, every pick's key is at least the floor,
/// and no more than `count` peaks are picked.
pub proof fn lemma_picks_are_separated(s: Seq<u32>, floor: u32, count: nat)
    requires
        floor > 0,
    ensures
        picks(s, floor, count).len() <= count,
        forall|k: int|
            0 <= k < picks(s, floor, count).len() ==> {
                &&& 0 <= #[trigger] picks(s, floor, count)[k] < s.len()
                &&& s[picks(s, floor, count)[k]] >= floor
            },
        forall|k: int, l: int|
            0 <= k < l < picks(s, floor, count).len() ==> {
                ||| #[trigger] picks(s, floor, count)[l] >= picks(s, floor, count)[k] + SUPPRESSION_WIDTH
                ||| #[trigger] picks(s, floor, count)[k] >= picks(s, floor, count)[l] + SUPPRESSION_WIDTH
            },
    decreases count,
{
    lemma_picks_in_profile(s, floor, count);
    if count > 0 && s.len() > 0 {
        let i = last_max(s);
        if s[i] >= floor {
            let t = suppress(s, i);
            lemma_picks_are_separated(t, floor, (count - 1) as nat);
            let rest = picks(t, floor, (count - 1) as nat);
            let all = picks(s, floor, count);
            assert forall|k: int, l: int| 0 <= k < l < all.len() implies {
                ||| #[trigger] all[l] >= all[k] + SUPPRESSION_WIDTH
                ||| #[trigger] all[k] >= all[l] + SUPPRESSION_WIDTH
            } by {
                if k == 0 {
                    assert(all[l] == rest[l - 1]);
                    assert(t[rest[l - 1]] >= floor);
                    lemma_suppress_keeps_or_zeroes(s, i, rest[l - 1]);
                } else {
                    assert(all[l] == rest[l - 1] && all[k] == rest[k - 1]);
                }
            }
        }
    }
}

/// A ranking holds no index twice.
proof fn lemma_ranking_distinct(a: Seq<u32>, r: Seq<int>, k: int, l: int)
    requires
        is_peak_ranking(a, r),
        0 <= k < r.len(),
        0 <= l < r.len(),
        r[k] == r[l],
    ensures
        k == l,
{
    if k < l {
        assert(ranks_before(a, r[k], r[l]));
    } else if l < k {
        assert(ranks_before(a, r[l], r[k]));
    }
}

/// Two rankings of the same spectrum agree on their first `n` positions.
proof fn lemma_rankings_agree(a: Seq<u32>, r1: Seq<int>, r2: Seq<int>, n: int)
    requires
        is_peak_ranking(a, r1),
        is_peak_ranking(a, r2),
        0 <= n <= r1.len(),
        n <= r2.len(),
    ensures
        forall|j: int| 0 <= j < n ==> r1[j] == r2[j],
    decreases n,
{
    if n > 0 {
        let k = n - 1;
        lemma_rankings_agree(a, r1, r2, k);
        let x = r1[k];
        let y = r2[k];
        if x != y {
            assert(is_local_peak(a, x));
            assert(is_local_peak(a, y));
            assert(r2.contains(x));
            assert(r1.contains(y));
            let m = choose|m: int| 0 <= m < r2.len() && r2[m] == x;
            let q = choose|q: int| 0 <= q < r1.len() && r1[q] == y;
            if m < k {
                assert(r1[m] == x);
                lemma_ranking_distinct(a, r1, m, k);
            }
            if q < k {
                assert(r2[q] == y);
                lemma_ranking_distinct(a, r2, q, k);
            }
            assert(m != k && q != k);
            assert(ranks_before(a, r2[k], r2[m]));
            assert(ranks_before(a, r1[k], r1[q]));
            assert(false);
        }
    }
}

/// Two rankings of the local peaks of the same spectrum are the same sequence:
/// the candidate order is fully determined by the amplitudes.
pub proof fn lemma_peak_ranking_unique(a: Seq<u32>, r1: Seq<int>, r2: Seq<int>)
    requires
        is_peak_ranking(a, r1),
        is_peak_ranking(a, r2),
    ensures
        r1 == r2,
{
    if r1.len() < r2.len() {
        lemma_rankings_agree(a, r1, r2, r1.len() as int);
        let z = r2[r1.len() as int];
        assert(is_local_peak(a, z));
        assert(r1.contains(z));
        let m = choose|m: int| 0 <= m < r1.len() && r1[m] == z;
        assert(r2[m] == z);
        lemma_ranking_distinct(a, r2, m, r1.len() as int);
    } else if r2.len() < r1.len() {
        lemma_rankings_agree(a, r1, r2, r2.len() as int);
        let z = r1[r2.len() as int];
        assert(is_local_peak(a, z));
        assert(r2.contains(z));
        let m = choose|m: int| 0 <= m < r2.len() && r2[m] == z;
        assert(r1[m] == z);
        lemma_ranking_distinct(a, r1, m, r2.len() as int);
    } else {
        lemma_rankings_agree(a, r1, r2, r1.len() as int);
    }
    assert(r1 =~= r2);
}

} // verus!
