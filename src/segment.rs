use vstd::prelude::*;

use crate::progress::{bytes_reported, found_reported, Tracker};

verus! {

/// The byte that closes every record (`}`).
pub const CLOSING_BRACKET: u8 = 125;

/// The segmenter reports progress each time this many bytes have gone by.
pub const BYTES_PER_REPORT: u64 = 4194304;

/// Cuts `bytes` into records, continuing the unfinished record `pending`.
/// The first component holds the records that `bytes` completes, each ending
/// with its closing bracket; the second is what is left unfinished.
pub open spec fn scan(pending: Seq<u8>, bytes: Seq<u8>) -> (Seq<Seq<u8>>, Seq<u8>)
    decreases bytes.len(),
{
    if bytes.len() == 0 {
        (Seq::empty(), pending)
    } else {
        let (records, rest) = scan(pending, bytes.drop_last());
        let b = bytes.last();
        if b == CLOSING_BRACKET {
            (records.push(rest.push(b)), Seq::empty())
        } else {
            (records, rest.push(b))
        }
    }
}

/// The records of a whole stream, and the unterminated bytes at its end.
pub open spec fn segments(bytes: Seq<u8>) -> (Seq<Seq<u8>>, Seq<u8>) {
    scan(Seq::empty(), bytes)
}

/// Views of a sequence of byte vectors.
pub open spec fn views(v: Seq<Vec<u8>>) -> Seq<Seq<u8>> {
    v.map_values(|r: Vec<u8>| r@)
}

/// `samples` is a run of pairs: `BytesRead` of `BYTES_PER_REPORT` bytes,
/// then the `LogsFound` count of the same stretch of input.
pub open spec fn report_pairs(samples: Seq<Tracker>) -> bool
    decreases samples.len(),
{
    if samples.len() == 0 {
        true
    } else {
        &&& samples.len() >= 2
        &&& samples[samples.len() - 2] == Tracker::BytesRead(Some(BYTES_PER_REPORT))
        &&& samples.last() is LogsFound
        &&& report_pairs(samples.drop_last().drop_last())
    }
}

/// What one call of [`Segmenter::feed`] produces.
pub struct Segmented {
    /// The records completed by the chunk, in stream order.
    pub records: Vec<Vec<u8>>,
    /// Progress samples, in pairs of `BytesRead` and `LogsFound`.
    pub samples: Vec<Tracker>,
}

/// Streaming tokenizer: accumulates bytes until a closing bracket.
pub struct Segmenter {
    pending: Vec<u8>,
    bytes_unreported: u64,
    records_unreported: u64,
}

impl Segmenter {
    /// The bytes of the record that is not closed yet.
    pub closed spec fn pending(&self) -> Seq<u8> {
        self.pending@
    }

    /// Bytes consumed since the last progress sample.
    pub closed spec fn bytes_unreported(&self) -> int {
        self.bytes_unreported as int
    }

    /// Records completed since the last progress sample.
    pub closed spec fn records_unreported(&self) -> int {
        self.records_unreported as int
    }

    pub closed spec fn wf(&self) -> bool {
        &&& self.bytes_unreported < BYTES_PER_REPORT
        &&& self.records_unreported <= self.bytes_unreported
        &&& !self.pending@.contains(CLOSING_BRACKET)
    }

    pub fn new() -> (s: Segmenter)
        ensures
            s.wf(),
            s.pending() == Seq::<u8>::empty(),
            s.bytes_unreported() == 0,
            s.records_unreported() == 0,
    {
        Segmenter { pending: Vec::new(), bytes_unreported: 0, records_unreported: 0 }
    }

    /// Number of bytes held for a record that is not closed yet.
    pub fn pending_len(&self) -> (n: usize)
        ensures
            n == self.pending().len(),
    {
        self.pending.len()
    }

    /// Consumes `chunk`: returns the records it completes, and a pair of
    /// progress samples each time `BYTES_PER_REPORT` bytes have gone by.
    pub fn feed(&mut self, chunk: &[u8]) -> (out: Segmented)
        requires
            old(self).wf(),
        ensures
            final(self).wf(),
            (views(out.records@), final(self).pending()) == scan(old(self).pending(), chunk@),
            bytes_reported(out.samples@) + final(self).bytes_unreported()
                == old(self).bytes_unreported() + chunk@.len(),
            found_reported(out.samples@) + final(self).records_unreported()
                == old(self).records_unreported() + out.records@.len(),
            report_pairs(out.samples@),
    {
        let ghost start = self.pending@;
        let mut records: Vec<Vec<u8>> = Vec::new();
        let mut samples: Vec<Tracker> = Vec::new();
        let mut i: usize = 0;
        while i < chunk.len()
            invariant
                self.wf(),
                0 <= i <= chunk@.len(),
                (views(records@), self.pending@) == scan(start, chunk@.subrange(0, i as int)),
                bytes_reported(samples@) + self.bytes_unreported == old(self).bytes_unreported()
                    + i,
                found_reported(samples@) + self.records_unreported
                    == old(self).records_unreported() + records@.len(),
                report_pairs(samples@),
            decreases chunk@.len() - i,
        {
            let b = chunk[i];
            let ghost prefix = chunk@.subrange(0, i as int);
            assert(chunk@.subrange(0, i + 1).drop_last() == prefix);
            self.bytes_unreported = self.bytes_unreported + 1;
            if b == CLOSING_BRACKET {
                let mut record: Vec<u8> = Vec::new();
                std::mem::swap(&mut record, &mut self.pending);
                record.push(b);
                records.push(record);
                self.records_unreported = self.records_unreported + 1;
                assert(views(records@) == scan(start, chunk@.subrange(0, i + 1)).0);
            } else {
                self.pending.push(b);
            }
            if self.bytes_unreported >= BYTES_PER_REPORT {
                let ghost before = samples@;
                samples.push(Tracker::BytesRead(Some(self.bytes_unreported)));
                samples.push(Tracker::LogsFound(self.records_unreported));
                assert(samples@.drop_last().drop_last() == before);
                assert(bytes_reported(samples@.drop_last()) == bytes_reported(before)
                    + BYTES_PER_REPORT);
                assert(found_reported(samples@.drop_last()) == found_reported(before));
                self.bytes_unreported = 0;
                self.records_unreported = 0;
            }
            i = i + 1;
        }
        assert(chunk@.subrange(0, i as int) == chunk@);
        Segmented { records, samples }
    }

    /// Ends the stream: the closing samples, `BytesRead(None)` and the count
    /// of records found since the last sample. Unterminated trailing bytes
    /// are dropped.
    pub fn finish(self) -> (samples: Vec<Tracker>)
        ensures
            samples@ == seq![Tracker::BytesRead(None), Tracker::LogsFound(self.records_unreported() as u64)],
    {
        let mut samples: Vec<Tracker> = Vec::new();
        samples.push(Tracker::BytesRead(None));
        samples.push(Tracker::LogsFound(self.records_unreported));
        samples
    }
}

/// Cutting a stream read in two chunks gives what cutting it read at once
/// gives: the records of the first chunk, then those of the second, which
/// continues the first chunk's unfinished record.
pub proof fn lemma_scan_chunks(pending: Seq<u8>, a: Seq<u8>, b: Seq<u8>)
    ensures
        ({
            let (ra, qa) = scan(pending, a);
            let (rb, qb) = scan(qa, b);
            scan(pending, a + b) == (ra + rb, qb)
        }),
    decreases b.len(),
{
    if b.len() == 0 {
        assert(a + b == a);
        assert(scan(pending, a).0 + Seq::<Seq<u8>>::empty() == scan(pending, a).0);
    } else {
        lemma_scan_chunks(pending, a, b.drop_last());
        assert((a + b).drop_last() == a + b.drop_last());
        let (ra, qa) = scan(pending, a);
        let (rc, qc) = scan(qa, b.drop_last());
        if b.last() == CLOSING_BRACKET {
            assert((ra + rc).push(qc.push(b.last())) == ra + rc.push(qc.push(b.last())));
        }
    }
}

/// Every record ends with the closing bracket and holds no other one; what is
/// left unfinished holds none.
pub proof fn lemma_records_closed(pending: Seq<u8>, bytes: Seq<u8>)
    requires
        !pending.contains(CLOSING_BRACKET),
    ensures
        ({
            let (records, rest) = scan(pending, bytes);
            &&& !rest.contains(CLOSING_BRACKET)
            &&& forall|k: int|
                0 <= k < records.len() ==> {
                    &&& (#[trigger] records[k]).len() > 0
                    &&& records[k].last() == CLOSING_BRACKET
                    &&& !records[k].drop_last().contains(CLOSING_BRACKET)
                }
        }),
    decreases bytes.len(),
{
    if bytes.len() > 0 {
        lemma_records_closed(pending, bytes.drop_last());
        let (records, rest) = scan(pending, bytes.drop_last());
        let b = bytes.last();
        if b == CLOSING_BRACKET {
            assert(rest.push(b).drop_last() == rest);
        } else {
            assert forall|i: int| 0 <= i < rest.push(b).len() implies rest.push(b)[i]
                != CLOSING_BRACKET by {
                if i < rest.len() {
                    assert(rest.push(b)[i] == rest[i]);
                }
            }
        }
    }
}

} // verus!
