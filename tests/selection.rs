use tone_watch::analysis::analyze_levels;
use tone_watch::peaks::{bucket_candidates, report_peaks, select_peaks, PeakCriteria};
use tone_watch::spectrum::{frequency_of_bin, map_spectrum, whole_level, Level, SpectrumBin, Truncated};

fn whole(n: i64) -> Truncated {
    Truncated { floor: n, fraction: false }
}

fn db(n: i64) -> Level {
    Level::Finite(whole(n))
}

fn bin(hz: i64, level: Level) -> SpectrumBin {
    SpectrumBin { hz: whole(hz), db: level }
}

#[test]
fn bin_frequencies_are_exact() {
    assert_eq!(frequency_of_bin(0, 44100, 4096), Truncated { floor: 0, fraction: false });
    // 12 * 44100 / 4096 = 129.19...
    assert_eq!(frequency_of_bin(12, 44100, 4096), Truncated { floor: 129, fraction: true });
    // 1024 * 44100 / 4096 = 11025
    assert_eq!(frequency_of_bin(1024, 44100, 4096), Truncated { floor: 11025, fraction: false });
    assert_eq!(frequency_of_bin(3, 100, 4), Truncated { floor: 75, fraction: false });
}

#[test]
fn mapper_pairs_levels_with_frequencies() {
    let bins = map_spectrum(&vec![db(1), Level::NegInfinite, db(30)], 1000, 8);
    assert_eq!(bins.len(), 3);
    assert_eq!(bins[0], bin(0, db(1)));
    assert_eq!(bins[1], bin(125, Level::NegInfinite));
    assert_eq!(bins[2], bin(250, db(30)));
}

#[test]
fn whole_level_truncates_and_saturates() {
    assert_eq!(whole_level(Level::Finite(Truncated { floor: 42, fraction: true })), 42);
    assert_eq!(whole_level(Level::Finite(Truncated { floor: -3, fraction: true })), 0);
    assert_eq!(whole_level(Level::Infinite), u64::MAX);
    assert_eq!(whole_level(Level::NegInfinite), 0);
    assert_eq!(whole_level(Level::Undefined), 0);
}

#[test]
fn band_filter_drops_600_hz_and_keeps_300_hz() {
    let bins = vec![bin(600, db(80)), bin(300, db(80))];
    let peaks = select_peaks(&bins, PeakCriteria::standard());
    assert_eq!(peaks, vec![(300, 80)]);
}

#[test]
fn band_edges_are_strict() {
    let bins = vec![
        bin(0, db(50)),
        bin(500, db(50)),
        SpectrumBin { hz: Truncated { floor: 0, fraction: true }, db: db(40) },
        SpectrumBin { hz: Truncated { floor: 499, fraction: true }, db: db(30) },
    ];
    let peaks = select_peaks(&bins, PeakCriteria::standard());
    assert_eq!(peaks, vec![(0, 40), (499, 30)]);
}

#[test]
fn threshold_is_strict() {
    let c = PeakCriteria::standard();
    assert!(report_peaks(&vec![bin(100, db(10))], c).is_none());
    let just_above = Level::Finite(Truncated { floor: 10, fraction: true });
    assert_eq!(select_peaks(&vec![bin(100, just_above)], c), vec![(100, 10)]);
    assert_eq!(select_peaks(&vec![bin(100, db(11))], c), vec![(100, 11)]);
}

#[test]
fn non_finite_levels() {
    let c = PeakCriteria::standard();
    let bins = vec![bin(50, Level::NegInfinite), bin(60, Level::Undefined), bin(70, Level::Infinite)];
    assert_eq!(select_peaks(&bins, c), vec![(70, u64::MAX)]);
}

#[test]
fn top_k_keeps_ten_best_in_order() {
    let mut bins = Vec::new();
    for i in 0..15i64 {
        bins.push(bin(20 + 10 * i, db(20 + (i * 7) % 15)));
    }
    let peaks = select_peaks(&bins, PeakCriteria::standard());
    assert_eq!(peaks.len(), 10);
    for w in peaks.windows(2) {
        assert!(w[0].1 >= w[1].1);
    }
    assert_eq!(peaks[0].1, 34);
    assert_eq!(peaks[9].1, 25);
}

#[test]
fn equal_levels_rank_by_lower_frequency() {
    let bins = vec![bin(200, db(30)), bin(100, db(30)), bin(150, db(40))];
    let peaks = select_peaks(&bins, PeakCriteria::standard());
    assert_eq!(peaks, vec![(150, 40), (100, 30), (200, 30)]);
}

#[test]
fn later_bin_wins_a_shared_whole_frequency() {
    let bins = vec![
        SpectrumBin { hz: Truncated { floor: 120, fraction: false }, db: db(50) },
        SpectrumBin { hz: Truncated { floor: 120, fraction: true }, db: db(20) },
    ];
    let table = bucket_candidates(&bins, PeakCriteria::standard());
    assert_eq!(table, vec![(120, 20)]);
    // a later bin that does not qualify leaves the earlier one in place
    let bins = vec![bin(120, db(50)), bin(120, db(5))];
    assert_eq!(bucket_candidates(&bins, PeakCriteria::standard()), vec![(120, 50)]);
}

#[test]
fn report_names_the_dominant_peak() {
    let bins = vec![bin(60, db(25)), bin(120, db(70)), bin(180, db(40))];
    let report = report_peaks(&bins, PeakCriteria::standard()).unwrap();
    assert_eq!(report.dominant, (120, 70));
    assert_eq!(report.candidates, vec![(120, 70), (180, 40), (60, 25)]);
    assert!(report_peaks(&vec![], PeakCriteria::standard()).is_none());
    let none_kept = PeakCriteria { top_k: 0, ..PeakCriteria::standard() };
    assert!(report_peaks(&bins, none_kept).is_none());
}

#[test]
fn analyze_levels_maps_then_selects() {
    // bins at 0, 125, 250, 375 Hz
    let levels = vec![db(90), db(30), db(60), db(5)];
    let report = analyze_levels(&levels, 1000, 8, PeakCriteria::standard()).unwrap();
    assert_eq!(report.dominant, (250, 60));
    assert_eq!(report.candidates, vec![(250, 60), (125, 30)]);
}
