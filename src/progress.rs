use vstd::prelude::*;

verus! {

/// A progress sample, sent by every stage of the pipeline to the aggregator.
#[derive(Debug, PartialEq, Eq)]
pub enum Tracker {
    /// A status line for the classifier (`None`: classification is over).
    LogsMessage(Option<String>),
    /// Bytes read since the last sample (`None`: the input is exhausted).
    BytesRead(Option<u64>),
    /// Records classified since the last sample.
    LogsParsed(u64),
    /// Records written by one batch write.
    LogsSaved(u64),
    /// Records found by the segmenter since the last sample.
    LogsFound(u64),
}

/// Total of the `BytesRead` counts in `samples`.
pub open spec fn bytes_reported(samples: Seq<Tracker>) -> int
    decreases samples.len(),
{
    if samples.len() == 0 {
        0
    } else {
        bytes_reported(samples.drop_last()) + match samples.last() {
            Tracker::BytesRead(Some(n)) => n as int,
            _ => 0,
        }
    }
}

/// Total of the `LogsFound` counts in `samples`.
pub open spec fn found_reported(samples: Seq<Tracker>) -> int
    decreases samples.len(),
{
    if samples.len() == 0 {
        0
    } else {
        found_reported(samples.drop_last()) + match samples.last() {
            Tracker::LogsFound(n) => n as int,
            _ => 0,
        }
    }
}

/// `a + b`, or `u64::MAX` where the sum does not fit.
pub open spec fn saturated(a: u64, b: u64) -> u64 {
    if a + b > u64::MAX {
        u64::MAX
    } else {
        (a + b) as u64
    }
}

/// The state that the progress aggregator keeps for the renderer.
pub struct Progress {
    /// Size of the input, in bytes.
    pub bytes_total: u64,
    /// Bytes read so far.
    pub bytes_read: u64,
    /// The segmenter has reached the end of the input.
    pub reading_done: bool,
    /// Records found so far by the segmenter.
    pub records_found: u64,
    /// The latest status line of the classifier.
    pub status: Option<String>,
    /// The classifier has seen its last record.
    pub parsing_done: bool,
    /// Records classified so far: those that are to be saved.
    pub records_expected: u64,
    /// Records written so far.
    pub records_saved: u64,
}

impl Progress {
    pub fn new(bytes_total: u64) -> (p: Progress)
        ensures
            p.bytes_total == bytes_total,
            p.bytes_read == 0,
            !p.reading_done,
            p.records_found == 0,
            p.status is None,
            !p.parsing_done,
            p.records_expected == 0,
            p.records_saved == 0,
    {
        Progress {
            bytes_total,
            bytes_read: 0,
            reading_done: false,
            records_found: 0,
            status: None,
            parsing_done: false,
            records_expected: 0,
            records_saved: 0,
        }
    }

    /// Takes one sample into account. Counts saturate at `u64::MAX`.
    pub fn apply(&mut self, sample: Tracker)
        ensures
            final(self).bytes_total == old(self).bytes_total,
            final(self).bytes_read == match sample {
                Tracker::BytesRead(Some(n)) => saturated(old(self).bytes_read, n),
                _ => old(self).bytes_read,
            },
            final(self).reading_done == (old(self).reading_done || sample == Tracker::BytesRead(
                None,
            )),
            final(self).records_found == match sample {
                Tracker::LogsFound(n) => saturated(old(self).records_found, n),
                _ => old(self).records_found,
            },
            final(self).status == match sample {
                Tracker::LogsMessage(m) => m,
                _ => old(self).status,
            },
            final(self).parsing_done == (old(self).parsing_done || sample == Tracker::LogsMessage(
                None,
            )),
            final(self).records_expected == match sample {
                Tracker::LogsParsed(n) => saturated(old(self).records_expected, n),
                _ => old(self).records_expected,
            },
            final(self).records_saved == match sample {
                Tracker::LogsSaved(n) => saturated(old(self).records_saved, n),
                _ => old(self).records_saved,
            },
    {
        match sample {
            Tracker::LogsMessage(m) => {
                if m.is_none() {
                    self.parsing_done = true;
                }
                self.status = m;
            },
            Tracker::BytesRead(Some(n)) => {
                self.bytes_read = self.bytes_read.saturating_add(n);
            },
            Tracker::BytesRead(None) => {
                self.reading_done = true;
            },
            Tracker::LogsParsed(n) => {
                self.records_expected = self.records_expected.saturating_add(n);
            },
            Tracker::LogsSaved(n) => {
                self.records_saved = self.records_saved.saturating_add(n);
            },
            Tracker::LogsFound(n) => {
                self.records_found = self.records_found.saturating_add(n);
            },
        }
    }
}

} // verus!
