use crate::spectrum::{
    SpectrumBin, exceeds, falls_below, is_above, level_exceeds, level_is_above, level_whole,
    whole_level,
};
use vstd::prelude::*;
use vstd::set_lib::lemma_len_subset;

verus! {

/// What makes a bin a candidate, and how many candidates a peak set keeps.
#[derive(Clone, Copy, Debug, PartialEq, Eq, Structural)]
pub struct PeakCriteria {
    /// A candidate lies strictly above this frequency, in hertz.
    pub band_low: u32,
    /// A candidate lies strictly below this frequency, in hertz.
    pub band_high: u32,
    /// A candidate's level lies strictly above this many decibels.
    pub threshold: i64,
    /// The largest number of candidates kept.
    pub top_k: usize,
}

impl PeakCriteria {
    /// Strictly between 0 and 500 Hz, strictly above 10 dB, at most ten kept.
    pub fn standard() -> (r: Self)
        ensures
            r == (PeakCriteria { band_low: 0, band_high: 500, threshold: 10, top_k: 10 }),
    {
        PeakCriteria { band_low: 0, band_high: 500, threshold: 10, top_k: 10 }
    }
}

/// A peak: a whole frequency in hertz and a whole level in decibels.
pub type Peak = (u64, u64);

/// Whether a bin lies inside the band and above the threshold.
pub open spec fn qualifies(b: SpectrumBin, c: PeakCriteria) -> bool {
    &&& exceeds(b.hz, c.band_low as int)
    &&& falls_below(b.hz, c.band_high as int)
    &&& level_exceeds(b.db, c.threshold as int)
}

/// The candidates of a sequence of bins, keyed by whole hertz: each qualifying
/// bin, scanned in order, writes its whole level under its whole frequency, so
/// that of two bins with the same whole frequency the later one stays.
pub open spec fn candidates(bins: Seq<SpectrumBin>, c: PeakCriteria) -> Map<u64, u64>
    decreases bins.len(),
{
    if bins.len() == 0 {
        Map::empty()
    } else {
        let m = candidates(bins.drop_last(), c);
        let b = bins.last();
        if qualifies(b, c) {
            m.insert(b.hz.floor as u64, level_whole(b.db))
        } else {
            m
        }
    }
}

/// The order of a peak set: higher level first, and of equal levels the lower frequency.
pub open spec fn ranks_before(a: Peak, b: Peak) -> bool {
    a.1 > b.1 || (a.1 == b.1 && a.0 < b.0)
}

/// `r` holds the `k` best candidates of `m` (all of them if there are fewer),
/// best first.
pub open spec fn is_peak_set(r: Seq<Peak>, m: Map<u64, u64>, k: nat) -> bool {
    &&& r.len() == if m.dom().len() < k {
        m.dom().len()
    } else {
        k
    }
    &&& forall|i: int|
        #![trigger r[i]]
        0 <= i < r.len() ==> m.contains_key(r[i].0) && m[r[i].0] == r[i].1
    &&& forall|i: int, j: int| 0 <= i < j < r.len() ==> ranks_before(#[trigger] r[i], #[trigger] r[j])
    &&& forall|h: u64|
        #[trigger] m.contains_key(h) && (forall|i: int| 0 <= i < r.len() ==> r[i].0 != h) ==> (
        forall|i: int| 0 <= i < r.len() ==> ranks_before(#[trigger] r[i], (h, m[h])))
}

/// The frequencies of a table of peaks, in order.
pub open spec fn keys_of(t: Seq<Peak>) -> Seq<u64> {
    t.map_values(|e: Peak| e.0)
}

/// A table of peaks with distinct frequencies holds exactly the entries of `m`.
pub open spec fn represents(t: Seq<Peak>, m: Map<u64, u64>) -> bool {
    &&& keys_of(t).no_duplicates()
    &&& m.dom() == keys_of(t).to_set()
    &&& forall|i: int| 0 <= i < t.len() ==> #[trigger] m[t[i].0] == t[i].1
}

/// `r` holds the `k` best entries of the table `t`, best first.
spec fn ranked_prefix(r: Seq<Peak>, t: Seq<Peak>, k: nat) -> bool {
    &&& r.len() == if t.len() < k {
        t.len()
    } else {
        k
    }
    &&& forall|i: int| 0 <= i < r.len() ==> t.contains(#[trigger] r[i])
    &&& forall|i: int, j: int| 0 <= i < j < r.len() ==> ranks_before(#[trigger] r[i], #[trigger] r[j])
    &&& forall|x: int|
        0 <= x < t.len() && !r.contains(#[trigger] t[x]) ==> (forall|i: int|
            0 <= i < r.len() ==> ranks_before(#[trigger] r[i], t[x]))
}

/// Whether `a` comes before `b` in a peak set.
pub fn peak_ranks_before(a: Peak, b: Peak) -> (r: bool)
    ensures
        r == ranks_before(a, b),
{
    a.1 > b.1 || (a.1 == b.1 && a.0 < b.0)
}

/// Whether a bin lies inside the band and above the threshold.
pub fn bin_qualifies(b: SpectrumBin, c: PeakCriteria) -> (r: bool)
    ensures
        r == qualifies(b, c),
{
    is_above(b.hz, c.band_low as i64) && b.hz.floor < c.band_high as i64 && level_is_above(
        b.db,
        c.threshold,
    )
}

proof fn lemma_keys_index(t: Seq<Peak>, i: int)
    requires
        0 <= i < t.len(),
    ensures
        keys_of(t)[i] == t[i].0,
        keys_of(t).len() == t.len(),
{
}

/// Gathers the candidates of a frame into a table with one entry per whole
/// frequency, in order of first appearance.
pub fn bucket_candidates(bins: &Vec<SpectrumBin>, c: PeakCriteria) -> (t: Vec<Peak>)
    ensures
        represents(t@, candidates(bins@, c)),
{
    let mut table: Vec<Peak> = Vec::new();
    let mut i: usize = 0;
    proof {
        assert(bins@.take(0) =~= Seq::<SpectrumBin>::empty());
        assert(keys_of(table@) =~= Seq::<u64>::empty());
        assert(keys_of(table@).to_set() =~= Set::<u64>::empty());
        assert(candidates(bins@.take(0), c).dom() =~= Set::<u64>::empty());
    }
    while i < bins.len()
        invariant
            i <= bins@.len(),
            represents(table@, candidates(bins@.take(i as int), c)),
        decreases bins@.len() - i,
    {
        let b = bins[i];
        let ghost m = candidates(bins@.take(i as int), c);
        proof {
            assert(bins@.take(i + 1).drop_last() =~= bins@.take(i as int));
            assert(bins@.take(i + 1).last() == b);
        }
        if bin_qualifies(b, c) {
            let key = b.hz.floor as u64;
            let db = whole_level(b.db);
            let ghost m2 = m.insert(key, db);
            assert(candidates(bins@.take(i + 1), c) == m2);
            let mut j: usize = 0;
            while j < table.len() && table[j].0 != key
                invariant
                    j <= table@.len(),
                    forall|x: int| 0 <= x < j ==> (#[trigger] table@[x]).0 != key,
                decreases table@.len() - j,
            {
                j = j + 1;
            }
            let ghost old_table = table@;
            if j < table.len() {
                table[j] = (key, db);
                proof {
                    assert(keys_of(table@) =~= keys_of(old_table));
                    assert(m.contains_key(key)) by {
                        lemma_keys_index(old_table, j as int);
                    }
                    assert(m2.dom() =~= m.dom());
                    assert forall|x: int| 0 <= x < table@.len() implies #[trigger] m2[table@[x].0]
                        == table@[x].1 by {
                        if x != j {
                            lemma_keys_index(old_table, x);
                            lemma_keys_index(old_table, j as int);
                            assert(old_table[x].0 != key);
                        }
                    }
                }
            } else {
                table.push((key, db));
                proof {
                    assert(keys_of(table@) =~= keys_of(old_table).push(key));
                    assert(!keys_of(old_table).contains(key)) by {
                        if keys_of(old_table).contains(key) {
                            let x = keys_of(old_table).index_of(key);
                            lemma_keys_index(old_table, x);
                        }
                    }
                    let ks = keys_of(table@);
                    let ko = keys_of(old_table);
                    assert forall|k: u64| #[trigger] ks.contains(k) == (ko.contains(k) || k == key) by {
                        if ks.contains(k) {
                            let x = ks.index_of(k);
                            if x < ko.len() {
                                assert(ko[x] == k);
                            }
                        }
                        if ko.contains(k) {
                            let x = ko.index_of(k);
                            assert(ks[x] == k);
                        }
                        if k == key {
                            assert(ks[ko.len() as int] == k);
                        }
                    }
                    assert(ks.to_set() =~= ko.to_set().insert(key));
                    assert(m2.dom() =~= m.dom().insert(key));
                    assert forall|x: int| 0 <= x < table@.len() implies #[trigger] m2[table@[x].0]
                        == table@[x].1 by {
                        if x < old_table.len() {
                            lemma_keys_index(old_table, x);
                            assert(old_table[x].0 != key) by {
                                assert(keys_of(old_table).contains(old_table[x].0));
                            }
                        }
                    }
                    assert(keys_of(table@).no_duplicates()) by {
                        assert forall|x: int, y: int|
                            0 <= x < keys_of(table@).len() && 0 <= y < keys_of(table@).len() && x
                                != y implies keys_of(table@)[x] != keys_of(table@)[y] by {
                            if x < old_table.len() && y < old_table.len() {
                            } else if x < old_table.len() {
                                assert(keys_of(old_table).contains(keys_of(table@)[x]));
                            } else {
                                assert(keys_of(old_table).contains(keys_of(table@)[y]));
                            }
                        }
                    }
                }
            }
        } else {
            assert(candidates(bins@.take(i + 1), c) == m);
        }
        i = i + 1;
    }
    assert(bins@.take(bins@.len() as int) =~= bins@);
    table
}

/// A sequence of distinct entries, all of them found in `t`, is no longer than `t`.
proof fn lemma_sub_len(r: Seq<Peak>, t: Seq<Peak>)
    requires
        r.no_duplicates(),
        forall|i: int| 0 <= i < r.len() ==> t.contains(#[trigger] r[i]),
    ensures
        r.len() <= t.len(),
{
    broadcast use vstd::seq_lib::seq_to_set_is_finite;

    r.unique_seq_to_set();
    t.lemma_cardinality_of_set();
    assert(r.to_set().subset_of(t.to_set())) by {
        assert forall|e: Peak| r.to_set().contains(e) implies t.to_set().contains(e) by {
            let i = r.index_of(e);
            assert(t.contains(r[i]));
        }
    }
    lemma_len_subset(r.to_set(), t.to_set());
}

proof fn lemma_entries_distinct(t: Seq<Peak>)
    requires
        keys_of(t).no_duplicates(),
    ensures
        t.no_duplicates(),
{
    assert forall|x: int, y: int| 0 <= x < t.len() && 0 <= y < t.len() && x != y implies t[x]
        != t[y] by {
        lemma_keys_index(t, x);
        lemma_keys_index(t, y);
    }
}

/// Picks the `k` best entries of a table with distinct frequencies, best first.
fn rank_table(t: &Vec<Peak>, k: usize) -> (r: Vec<Peak>)
    requires
        keys_of(t@).no_duplicates(),
    ensures
        ranked_prefix(r@, t@, k as nat),
{
    let mut r: Vec<Peak> = Vec::new();
    loop
        invariant
            keys_of(t@).no_duplicates(),
            r@.len() <= k,
            forall|i: int| 0 <= i < r@.len() ==> t@.contains(#[trigger] r@[i]),
            forall|i: int, j: int|
                0 <= i < j < r@.len() ==> ranks_before(#[trigger] r@[i], #[trigger] r@[j]),
            forall|x: int|
                0 <= x < t@.len() && !r@.contains(#[trigger] t@[x]) ==> (forall|i: int|
                    0 <= i < r@.len() ==> ranks_before(#[trigger] r@[i], t@[x])),
        decreases k - r@.len(),
    {
        proof {
            lemma_entries_distinct(t@);
            assert(r@.no_duplicates()) by {
                assert forall|i: int, j: int|
                    0 <= i < r@.len() && 0 <= j < r@.len() && i != j implies r@[i] != r@[j] by {
                    if i < j {
                        assert(ranks_before(r@[i], r@[j]));
                    } else {
                        assert(ranks_before(r@[j], r@[i]));
                    }
                }
            }
            lemma_sub_len(r@, t@);
        }
        if r.len() >= k {
            return r;
        }
        let mut best: usize = t.len();
        let mut x: usize = 0;
        while x < t.len()
            invariant
                x <= t@.len(),
                best <= t@.len(),
                keys_of(t@).no_duplicates(),
                forall|i: int, j: int|
                    0 <= i < j < r@.len() ==> ranks_before(#[trigger] r@[i], #[trigger] r@[j]),
                forall|y: int|
                    0 <= y < t@.len() && !r@.contains(#[trigger] t@[y]) ==> (forall|i: int|
                        0 <= i < r@.len() ==> ranks_before(#[trigger] r@[i], t@[y])),
                best < t@.len() ==> !r@.contains(t@[best as int]),
                best < t@.len() ==> forall|y: int|
                    0 <= y < x && !r@.contains(#[trigger] t@[y]) ==> t@[y] == t@[best as int]
                        || ranks_before(t@[best as int], t@[y]),
                best == t@.len() ==> forall|y: int| 0 <= y < x ==> r@.contains(#[trigger] t@[y]),
            decreases t@.len() - x,
        {
            let e = t[x];
            let fresh = r.len() == 0 || peak_ranks_before(r[r.len() - 1], e);
            proof {
                if r@.contains(e) {
                    let i = r@.index_of(e);
                    if i < r@.len() - 1 {
                        assert(ranks_before(r@[i], r@[r@.len() - 1]));
                    }
                    assert(!fresh);
                } else if r@.len() > 0 {
                    assert(ranks_before(r@[r@.len() - 1], t@[x as int]));
                }
            }
            if fresh && (best == t.len() || peak_ranks_before(e, t[best])) {
                proof {
                    assert forall|y: int|
                        0 <= y < x + 1 && !r@.contains(#[trigger] t@[y]) implies t@[y] == e
                            || ranks_before(e, t@[y]) by {
                        if y < x && best < t@.len() && t@[y] != t@[best as int] {
                            lemma_keys_index(t@, y);
                        }
                    }
                }
                best = x;
            } else {
                proof {
                    if fresh && best < t@.len() {
                        lemma_keys_index(t@, x as int);
                        lemma_keys_index(t@, best as int);
                        if x != best {
                            assert(t@[x as int].0 != t@[best as int].0);
                        }
                    }
                }
            }
            x = x + 1;
        }
        if best == t.len() {
            proof {
                lemma_entries_distinct(t@);
                assert forall|y: int| 0 <= y < t@.len() implies r@.contains(#[trigger] t@[y]) by {}
                lemma_sub_len(t@, r@);
            }
            return r;
        }
        let chosen = t[best];
        let ghost prev = r@;
        r.push(chosen);
        proof {
            assert(prev.contains(chosen) == false);
            assert forall|i: int| 0 <= i < r@.len() implies t@.contains(#[trigger] r@[i]) by {
                if i == prev.len() {
                    assert(t@[best as int] == r@[i]);
                } else {
                    assert(r@[i] == prev[i]);
                }
            }
            assert forall|i: int, j: int| 0 <= i < j < r@.len() implies ranks_before(
                #[trigger] r@[i],
                #[trigger] r@[j],
            ) by {
                assert(r@[i] == prev[i]);
                if j < prev.len() {
                    assert(r@[j] == prev[j]);
                }
            }
            assert forall|y: int| 0 <= y < t@.len() && !r@.contains(#[trigger] t@[y]) implies (
            forall|i: int| 0 <= i < r@.len() ==> ranks_before(#[trigger] r@[i], t@[y])) by {
                assert(!prev.contains(t@[y])) by {
                    if prev.contains(t@[y]) {
                        let i = prev.index_of(t@[y]);
                        assert(r@[i] == t@[y]);
                    }
                }
                assert(t@[y] != chosen) by {
                    assert(r@[prev.len() as int] == chosen);
                }
                assert forall|i: int| 0 <= i < r@.len() implies ranks_before(
                    #[trigger] r@[i],
                    t@[y],
                ) by {
                    if i < prev.len() {
                        assert(r@[i] == prev[i]);
                    }
                }
            }
        }
    }
}

proof fn lemma_ranked_table_is_peak_set(r: Seq<Peak>, t: Seq<Peak>, m: Map<u64, u64>, k: nat)
    requires
        represents(t, m),
        ranked_prefix(r, t, k),
    ensures
        is_peak_set(r, m, k),
{
    keys_of(t).unique_seq_to_set();
    assert forall|i: int| 0 <= i < r.len() implies #[trigger] m.contains_key(r[i].0) && m[r[i].0]
        == r[i].1 by {
        assert(t.contains(r[i]));
        let x = t.index_of(r[i]);
        lemma_keys_index(t, x);
        assert(keys_of(t).contains(t[x].0));
    }
    assert forall|h: u64|
        #[trigger] m.contains_key(h) && (forall|i: int| 0 <= i < r.len() ==> r[i].0 != h) implies (
    forall|i: int| 0 <= i < r.len() ==> ranks_before(#[trigger] r[i], (h, m[h]))) by {
        assert(keys_of(t).to_set().contains(h));
        let x = keys_of(t).index_of(h);
        lemma_keys_index(t, x);
        assert(t[x] == (h, m[h]));
        if r.contains(t[x]) {
            let i = r.index_of(t[x]);
            assert(r[i].0 == h);
        }
    }
}

/// The peak set of a frame's bins: the `top_k` strongest candidates, best first.
pub fn select_peaks(bins: &Vec<SpectrumBin>, c: PeakCriteria) -> (r: Vec<Peak>)
    ensures
        is_peak_set(r@, candidates(bins@, c), c.top_k as nat),
{
    let table = bucket_candidates(bins, c);
    let r = rank_table(&table, c.top_k);
    proof {
        lemma_ranked_table_is_peak_set(r@, table@, candidates(bins@, c), c.top_k as nat);
    }
    r
}

/// What one frame reports: its strongest candidate and the peak set it leads.
#[derive(Debug)]
pub struct PeakReport {
    pub dominant: Peak,
    pub candidates: Vec<Peak>,
}

/// The report of a frame's bins, or `None` when nothing in them qualifies
/// (or no candidate may be kept at all).
pub fn report_peaks(bins: &Vec<SpectrumBin>, c: PeakCriteria) -> (r: Option<PeakReport>)
    ensures
        r is None <==> candidates(bins@, c).dom().len() == 0 || c.top_k == 0,
        r is Some ==> is_peak_set(r->0.candidates@, candidates(bins@, c), c.top_k as nat)
            && r->0.dominant == r->0.candidates@[0],
{
    let peaks = select_peaks(bins, c);
    if peaks.len() == 0 {
        None
    } else {
        let dominant = peaks[0];
        Some(PeakReport { dominant, candidates: peaks })
    }
}

/// Every candidate comes from a bin inside the band and above the threshold,
/// with that bin's whole frequency and whole level; and every such bin leaves
/// a candidate under its whole frequency.
pub proof fn lemma_candidates_qualify(bins: Seq<SpectrumBin>, c: PeakCriteria)
    ensures
        forall|h: u64|
            #[trigger] candidates(bins, c).contains_key(h) ==> exists|j: int|
                0 <= j < bins.len() && qualifies(#[trigger] bins[j], c) && bins[j].hz.floor == h
                    && level_whole(bins[j].db) == candidates(bins, c)[h],
        forall|j: int|
            0 <= j < bins.len() && qualifies(#[trigger] bins[j], c) ==> candidates(
                bins,
                c,
            ).contains_key(bins[j].hz.floor as u64),
    decreases bins.len(),
{
    if bins.len() > 0 {
        let init = bins.drop_last();
        lemma_candidates_qualify(init, c);
        assert forall|h: u64| #[trigger] candidates(bins, c).contains_key(h) implies exists|j: int|
            0 <= j < bins.len() && qualifies(#[trigger] bins[j], c) && bins[j].hz.floor == h
                && level_whole(bins[j].db) == candidates(bins, c)[h] by {
            let b = bins.last();
            if qualifies(b, c) && h == b.hz.floor as u64 {
                assert(b.hz.floor >= 0);
                assert(bins[bins.len() - 1] == b);
            } else {
                let j = choose|j: int|
                    0 <= j < init.len() && qualifies(#[trigger] init[j], c) && init[j].hz.floor
                        == h && level_whole(init[j].db) == candidates(init, c)[h];
                assert(bins[j] == init[j]);
            }
        }
        assert forall|j: int| 0 <= j < bins.len() && qualifies(#[trigger] bins[j], c) implies candidates(
            bins,
            c,
        ).contains_key(bins[j].hz.floor as u64) by {
            if j < init.len() {
                assert(bins[j] == init[j]);
            }
        }
    }
}

/// The dominant peak of a report ranks before every other candidate of the
/// frame: no candidate has a higher level, and of equal levels it has the lowest frequency.
pub proof fn lemma_dominant_is_strongest(r: Seq<Peak>, m: Map<u64, u64>, k: nat)
    requires
        is_peak_set(r, m, k),
        r.len() > 0,
    ensures
        m.contains_key(r[0].0),
        forall|h: u64| #[trigger] m.contains_key(h) && h != r[0].0 ==> ranks_before(r[0], (h, m[h])),
{
    assert(m.contains_key(r[0].0));
    assert forall|h: u64| #[trigger] m.contains_key(h) && h != r[0].0 implies ranks_before(
        r[0],
        (h, m[h]),
    ) by {
        if exists|i: int| 0 <= i < r.len() && r[i].0 == h {
            let i = choose|i: int| 0 <= i < r.len() && r[i].0 == h;
            assert(m.contains_key(r[i].0) && m[r[i].0] == r[i].1);
            assert(i != 0);
            assert(ranks_before(r[0], r[i]));
        } else {
            assert(ranks_before(r[0], (h, m[h])));
        }
    }
}

proof fn lemma_peak_entry(r: Seq<Peak>, m: Map<u64, u64>, k: nat, i: int)
    requires
        is_peak_set(r, m, k),
        0 <= i < r.len(),
    ensures
        m.contains_key(r[i].0),
        m[r[i].0] == r[i].1,
{
}

/// Every entry of a peak set lies inside the band and comes from a bin whose
/// level exceeds the threshold, with that bin's whole frequency and whole level.
pub proof fn lemma_peaks_qualify(bins: Seq<SpectrumBin>, c: PeakCriteria, r: Seq<Peak>, k: nat)
    requires
        is_peak_set(r, candidates(bins, c), k),
    ensures
        forall|i: int|
            0 <= i < r.len() ==> c.band_low <= #[trigger] r[i].0 < c.band_high && exists|j: int|
                0 <= j < bins.len() && qualifies(#[trigger] bins[j], c) && bins[j].hz.floor
                    == r[i].0 && level_whole(bins[j].db) == r[i].1,
{
    lemma_candidates_qualify(bins, c);
    let m = candidates(bins, c);
    assert forall|i: int| 0 <= i < r.len() implies c.band_low <= #[trigger] r[i].0 < c.band_high
        && exists|j: int|
        0 <= j < bins.len() && qualifies(#[trigger] bins[j], c) && bins[j].hz.floor == r[i].0
            && level_whole(bins[j].db) == r[i].1 by {
        lemma_peak_entry(r, m, k, i);
        let j = choose|j: int|
            0 <= j < bins.len() && qualifies(#[trigger] bins[j], c) && bins[j].hz.floor == r[i].0
                && level_whole(bins[j].db) == m[r[i].0];
        assert(qualifies(bins[j], c));
    }
}

} // verus!
