use crate::accumulator::{FrameAccumulator, feed_step};
use crate::peaks::{PeakCriteria, PeakReport, candidates, is_peak_set, report_peaks};
use crate::spectrum::{Level, SpectrumBin, bin_frequency, map_spectrum};
use vstd::prelude::*;

verus! {

/// Why an analyzer cannot be set up.
#[derive(Clone, Copy, Debug, PartialEq, Eq, Structural)]
pub enum ConfigError {
    /// A frame must hold at least two samples for the window to be defined.
    FrameTooSmall,
    /// The sample rate must be positive.
    NoSampleRate,
}

/// The bins of a transform's first `levels.len()` outputs, bin `i` at
/// `i * sample_rate / frame_size` hertz with level `levels[i]`.
pub open spec fn spectrum_of(levels: Seq<Level>, sample_rate: int, frame_size: int) -> Seq<SpectrumBin> {
    Seq::new(
        levels.len(),
        |i: int| SpectrumBin { hz: bin_frequency(i, sample_rate, frame_size), db: levels[i] },
    )
}

/// The report owed for a frame whose first bins have the given levels: `None`
/// exactly when no bin qualifies, else the peak set led by its best entry.
pub open spec fn is_report_of(
    r: Option<PeakReport>,
    levels: Seq<Level>,
    sample_rate: int,
    frame_size: int,
    c: PeakCriteria,
) -> bool {
    let m = candidates(spectrum_of(levels, sample_rate, frame_size), c);
    &&& r is None <==> m.dom().len() == 0 || c.top_k == 0
    &&& r is Some ==> is_peak_set(r->0.candidates@, m, c.top_k as nat) && r->0.dominant
        == r->0.candidates@[0]
}

/// Maps the levels of a frame's first bins to frequencies and reports its peaks.
pub fn analyze_levels(levels: &Vec<Level>, sample_rate: u32, frame_size: usize, c: PeakCriteria) -> (r:
    Option<PeakReport>)
    requires
        levels@.len() <= frame_size,
    ensures
        is_report_of(r, levels@, sample_rate as int, frame_size as int, c),
{
    let bins = map_spectrum(levels, sample_rate, frame_size);
    assert(bins@ =~= spectrum_of(levels@, sample_rate as int, frame_size as int));
    report_peaks(&bins, c)
}

/// The analysis worker's state: the settings fixed at start-up and the samples
/// waiting for a frame.
pub struct Analyzer<T> {
    frame_size: usize,
    sample_rate: u32,
    criteria: PeakCriteria,
    frames: FrameAccumulator<T>,
}

impl<T: Copy> Analyzer<T> {
    pub closed spec fn frame_size_spec(&self) -> nat {
        self.frame_size as nat
    }

    pub closed spec fn sample_rate_spec(&self) -> nat {
        self.sample_rate as nat
    }

    pub closed spec fn criteria_spec(&self) -> PeakCriteria {
        self.criteria
    }

    /// The samples waiting for a frame, oldest first.
    pub closed spec fn pending(&self) -> Seq<T> {
        self.frames@
    }

    /// Settings that a worker can run with.
    pub open spec fn valid(&self) -> bool {
        self.frame_size_spec() >= 2 && self.sample_rate_spec() > 0
    }

    /// An analyzer with nothing pending, or the reason the settings are refused.
    pub fn new(frame_size: usize, sample_rate: u32, criteria: PeakCriteria) -> (r: Result<
        Self,
        ConfigError,
    >)
        ensures
            frame_size < 2 ==> r == Err::<Self, ConfigError>(ConfigError::FrameTooSmall),
            frame_size >= 2 && sample_rate == 0 ==> r == Err::<Self, ConfigError>(
                ConfigError::NoSampleRate,
            ),
            frame_size >= 2 && sample_rate > 0 ==> r is Ok && r->Ok_0.valid()
                && r->Ok_0.frame_size_spec() == frame_size && r->Ok_0.sample_rate_spec()
                == sample_rate && r->Ok_0.criteria_spec() == criteria && r->Ok_0.pending()
                == Seq::<T>::empty(),
    {
        if frame_size < 2 {
            Err(ConfigError::FrameTooSmall)
        } else if sample_rate == 0 {
            Err(ConfigError::NoSampleRate)
        } else {
            Ok(Analyzer { frame_size, sample_rate, criteria, frames: FrameAccumulator::new() })
        }
    }

    pub fn frame_size(&self) -> (r: usize)
        ensures
            r == self.frame_size_spec(),
    {
        self.frame_size
    }

    pub fn sample_rate(&self) -> (r: u32)
        ensures
            r == self.sample_rate_spec(),
    {
        self.sample_rate
    }

    pub fn criteria(&self) -> (r: PeakCriteria)
        ensures
            r == self.criteria_spec(),
    {
        self.criteria
    }

    /// The number of samples waiting for a frame.
    pub fn pending_len(&self) -> (r: usize)
        ensures
            r == self.pending().len(),
    {
        self.frames.len()
    }

    /// Takes in a chunk of samples and returns every frame that is complete
    /// after it, in order.
    pub fn feed(&mut self, chunk: &Vec<T>) -> (r: Vec<Vec<T>>)
        requires
            old(self).valid(),
        ensures
            final(self).valid(),
            final(self).frame_size_spec() == old(self).frame_size_spec(),
            final(self).sample_rate_spec() == old(self).sample_rate_spec(),
            final(self).criteria_spec() == old(self).criteria_spec(),
            (r@.len() as nat, final(self).pending()) == feed_step(
                old(self).pending(),
                chunk@,
                old(self).frame_size_spec(),
            ),
            forall|k: int|
                0 <= k < r@.len() ==> #[trigger] r@[k]@ == (old(self).pending() + chunk@).subrange(
                    k * old(self).frame_size_spec(),
                    (k + 1) * old(self).frame_size_spec(),
                ),
    {
        self.frames.feed(chunk, self.frame_size)
    }

    /// The report of one transformed frame, given the levels of its first bins.
    pub fn report(&self, levels: &Vec<Level>) -> (r: Option<PeakReport>)
        requires
            levels@.len() <= self.frame_size_spec(),
        ensures
            is_report_of(
                r,
                levels@,
                self.sample_rate_spec() as int,
                self.frame_size_spec() as int,
                self.criteria_spec(),
            ),
    {
        analyze_levels(levels, self.sample_rate, self.frame_size, self.criteria)
    }
}

} // verus!
