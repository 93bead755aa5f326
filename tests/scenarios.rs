use rustfft::num_complex::Complex;
use rustfft::FftPlanner;
use tone_watch::analysis::Analyzer;
use tone_watch::peaks::PeakCriteria;
use tone_watch::spectrum::{Level, Truncated};

fn level_of(db: f32) -> Level {
    if db.is_nan() {
        Level::Undefined
    } else if db == f32::INFINITY {
        Level::Infinite
    } else if db == f32::NEG_INFINITY {
        Level::NegInfinite
    } else {
        let f = db.floor();
        Level::Finite(Truncated { floor: f as i64, fraction: db != f })
    }
}

fn hanning(frame: &[f32]) -> Vec<f32> {
    let n = frame.len();
    frame
        .iter()
        .enumerate()
        .map(|(i, x)| {
            let w = 0.5 * (1.0 - (2.0 * std::f32::consts::PI * i as f32 / (n - 1) as f32).cos());
            w * x
        })
        .collect()
}

fn levels_of(frame: &[f32]) -> (Vec<Level>, Vec<f32>) {
    let n = frame.len();
    let mut buf: Vec<Complex<f32>> = frame.iter().map(|x| Complex::new(*x, 0.0)).collect();
    FftPlanner::new().plan_fft_forward(n).process(&mut buf);
    let dbs: Vec<f32> = buf[..n / 2].iter().map(|c| 20.0 * c.norm_sqr().log10()).collect();
    (dbs.iter().map(|d| level_of(*d)).collect(), dbs)
}

fn tone(freq: f32, rate: u32, len: usize, amplitude: f32) -> Vec<f32> {
    (0..len)
        .map(|i| amplitude * (2.0 * std::f32::consts::PI * freq * i as f32 / rate as f32).sin())
        .collect()
}

#[test]
fn tone_on_a_bin_centre_stands_out() {
    let (rate, n, m) = (8000u32, 256usize, 5usize);
    let freq = rate as f32 / n as f32 * m as f32; // 156.25 Hz
    let (levels, dbs) = levels_of(&tone(freq, rate, n, 0.5));
    for (i, d) in dbs.iter().enumerate() {
        if i != m {
            assert!(dbs[m] > d + 20.0);
        }
    }
    let a = Analyzer::<f32>::new(n, rate, PeakCriteria::standard()).ok().unwrap();
    let report = a.report(&levels).unwrap();
    assert_eq!(report.dominant.0, 156);
}

#[test]
fn steady_hum_at_120_hz_is_reported_each_frame() {
    let rate = 44100u32;
    let n = 4096usize;
    let signal = tone(120.0, rate, 5 * rate as usize, 0.5);
    let mut a = Analyzer::<f32>::new(n, rate, PeakCriteria::standard()).ok().unwrap();
    let mut reports = 0;
    for chunk in signal.chunks(1000) {
        for frame in a.feed(&chunk.to_vec()) {
            let (levels, _) = levels_of(&hanning(&frame));
            let report = a.report(&levels).unwrap();
            // the bin centre nearest 120 Hz is 11 * 44100 / 4096 = 118.4 Hz
            assert!(report.dominant.0 >= 118 && report.dominant.0 <= 121);
            assert!(report.candidates.len() <= 10);
            for (hz, _) in &report.candidates {
                assert!(*hz < 500);
            }
            reports += 1;
        }
    }
    assert_eq!(reports, 5 * 44100 / 4096);
    assert_eq!(a.pending_len(), 5 * 44100 % 4096);
}

#[test]
fn silence_reports_nothing() {
    let a = Analyzer::<f32>::new(64, 8000, PeakCriteria::standard()).ok().unwrap();
    let (levels, _) = levels_of(&vec![0.0; 64]);
    assert!(levels.iter().all(|l| *l == Level::NegInfinite));
    assert!(a.report(&levels).is_none());
}
