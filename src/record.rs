use vstd::prelude::*;

use crate::model::{Entry, NewFinishedLog, NewStartingLog};
use crate::progress::Tracker;
use crate::segment::views;

verus! {

pub const OPEN_BRACE: u8 = 123;
pub const CLOSE_BRACE: u8 = 125;
pub const QUOTE: u8 = 34;
pub const SPACE: u8 = 32;
pub const COMMA: u8 = 44;
pub const COLON: u8 = 58;
pub const MINUS: u8 = 45;
pub const PLUS: u8 = 43;

/// The characters that carry no content: braces, quotes and spaces.
pub open spec fn is_structural(b: u8) -> bool {
    b == OPEN_BRACE || b == CLOSE_BRACE || b == QUOTE || b == SPACE
}

/// `s` without its structural characters.
pub open spec fn stripped(s: Seq<u8>) -> Seq<u8>
    decreases s.len(),
{
    if s.len() == 0 {
        s
    } else if is_structural(s.last()) {
        stripped(s.drop_last())
    } else {
        stripped(s.drop_last()).push(s.last())
    }
}

/// `s` cut at every comma; never empty.
pub open spec fn split_parts(s: Seq<u8>) -> Seq<Seq<u8>>
    decreases s.len(),
{
    if s.len() == 0 {
        seq![Seq::empty()]
    } else {
        let parts = split_parts(s.drop_last());
        if s.last() == COMMA {
            parts.push(Seq::empty())
        } else {
            parts.drop_last().push(parts.last().push(s.last()))
        }
    }
}

/// The parts of a record: its content without structural characters, cut at commas.
pub open spec fn record_parts(raw: Seq<u8>) -> Seq<Seq<u8>> {
    split_parts(stripped(raw))
}

/// `i` is the position of the first colon in `p`.
pub open spec fn is_first_colon(p: Seq<u8>, i: int) -> bool {
    &&& 0 <= i < p.len()
    &&& p[i] == COLON
    &&& forall|j: int| 0 <= j < i ==> p[j] != COLON
}

/// A part read as a key and a value, cut at its first colon.
pub open spec fn key_value(p: Seq<u8>) -> Option<(Seq<u8>, Seq<u8>)> {
    if exists|i: int| is_first_colon(p, i) {
        let i = choose|i: int| is_first_colon(p, i);
        Some((p.subrange(0, i), p.subrange(i + 1, p.len() as int)))
    } else {
        None
    }
}

/// The value of the first part whose key is `key`.
pub open spec fn lookup(parts: Seq<Seq<u8>>, key: Seq<u8>) -> Option<Seq<u8>>
    decreases parts.len(),
{
    if parts.len() == 0 {
        None
    } else if key_value(parts[0]) is Some && key_value(parts[0])->Some_0.0 == key {
        Some(key_value(parts[0])->Some_0.1)
    } else {
        lookup(parts.drop_first(), key)
    }
}

pub open spec fn is_digit(b: u8) -> bool {
    48 <= b <= 57
}

pub open spec fn all_digits(s: Seq<u8>) -> bool {
    forall|i: int| 0 <= i < s.len() ==> is_digit(#[trigger] s[i])
}

/// The number that a string of decimal digits denotes.
pub open spec fn digits_value(s: Seq<u8>) -> int
    decreases s.len(),
{
    if s.len() == 0 {
        0
    } else {
        digits_value(s.drop_last()) * 10 + (s.last() - 48)
    }
}

/// The integer that `s` writes in decimal: digits, after an optional sign.
pub open spec fn integer_value(s: Seq<u8>) -> Option<int> {
    if s.len() > 1 && s[0] == MINUS && all_digits(s.drop_first()) {
        Some(-digits_value(s.drop_first()))
    } else if s.len() > 1 && s[0] == PLUS && all_digits(s.drop_first()) {
        Some(digits_value(s.drop_first()))
    } else if s.len() > 0 && all_digits(s) {
        Some(digits_value(s))
    } else {
        None
    }
}

/// `s` read as an `i64`: `None` where it is no integer or out of range.
pub open spec fn parsed_i64(s: Seq<u8>) -> Option<i64> {
    match integer_value(s) {
        Some(v) => if i64::MIN <= v <= i64::MAX {
            Some(v as i64)
        } else {
            None
        },
        None => None,
    }
}

proof fn lemma_digits_value_nonneg(s: Seq<u8>)
    requires
        all_digits(s),
    ensures
        digits_value(s) >= 0,
    decreases s.len(),
{
    if s.len() > 0 {
        assert(all_digits(s.drop_last()));
        lemma_digits_value_nonneg(s.drop_last());
    }
}

proof fn lemma_digits_value_monotone(s: Seq<u8>, i: int)
    requires
        all_digits(s),
        0 <= i <= s.len(),
    ensures
        digits_value(s.subrange(0, i)) <= digits_value(s),
    decreases s.len(),
{
    if i < s.len() {
        let t = s.drop_last();
        assert(all_digits(t));
        lemma_digits_value_monotone(t, i);
        assert(t.subrange(0, i) == s.subrange(0, i));
        lemma_digits_value_nonneg(t);
    } else {
        assert(s.subrange(0, i) == s);
    }
}

/// Splits a raw record into its parts.
pub fn split_fields(raw: &[u8]) -> (parts: Vec<Vec<u8>>)
    ensures
        views(parts@) == record_parts(raw@),
{
    let mut parts: Vec<Vec<u8>> = Vec::new();
    let mut current: Vec<u8> = Vec::new();
    let mut i: usize = 0;
    assert(raw@.subrange(0, 0) == Seq::<u8>::empty());
    assert(views(parts@).push(current@) == seq![Seq::<u8>::empty()]);
    while i < raw.len()
        invariant
            0 <= i <= raw@.len(),
            views(parts@).push(current@) == split_parts(stripped(raw@.subrange(0, i as int))),
        decreases raw@.len() - i,
    {
        let b = raw[i];
        let ghost prefix = raw@.subrange(0, i as int);
        let ghost next = raw@.subrange(0, i + 1);
        assert(next.drop_last() == prefix);
        assert(stripped(prefix).push(b).drop_last() == stripped(prefix));
        if b == COMMA {
            let ghost before = views(parts@);
            let mut part: Vec<u8> = Vec::new();
            std::mem::swap(&mut part, &mut current);
            parts.push(part);
            assert(views(parts@) == before.push(part@));
            assert(stripped(next) == stripped(prefix).push(b));
        } else if b == OPEN_BRACE || b == CLOSE_BRACE || b == QUOTE || b == SPACE {
            assert(stripped(next) == stripped(prefix));
        } else {
            let ghost before = views(parts@).push(current@);
            current.push(b);
            assert(stripped(next) == stripped(prefix).push(b));
            assert(before.drop_last() == views(parts@));
        }
        i = i + 1;
    }
    assert(raw@.subrange(0, i as int) == raw@);
    proof {
        let whole = split_parts(stripped(raw@));
        assert(views(parts@) == whole.drop_last());
    }
    parts.push(current);
    proof {
        assert(views(parts@) == split_parts(stripped(raw@)));
    }
    parts
}

/// Finds the first colon of `part`.
fn first_colon(part: &[u8]) -> (r: Option<usize>)
    ensures
        match r {
            Some(i) => is_first_colon(part@, i as int),
            None => forall|i: int| 0 <= i < part@.len() ==> part@[i] != COLON,
        },
{
    let mut i: usize = 0;
    while i < part.len()
        invariant
            0 <= i <= part@.len(),
            forall|j: int| 0 <= j < i ==> part@[j] != COLON,
        decreases part@.len() - i,
    {
        if part[i] == COLON {
            return Some(i);
        }
        i = i + 1;
    }
    None
}

/// Whether two byte strings are equal.
pub fn bytes_eq(a: &[u8], b: &[u8]) -> (r: bool)
    ensures
        r == (a@ == b@),
{
    if a.len() != b.len() {
        return false;
    }
    let mut i: usize = 0;
    while i < a.len()
        invariant
            a@.len() == b@.len(),
            0 <= i <= a@.len(),
            forall|j: int| 0 <= j < i ==> a@[j] == b@[j],
        decreases a@.len() - i,
    {
        if a[i] != b[i] {
            return false;
        }
        i = i + 1;
    }
    assert(a@ == b@);
    true
}

/// The value of the first part of `parts` whose key is `key`.
pub fn find_field<'a>(parts: &'a Vec<Vec<u8>>, key: &[u8]) -> (r: Option<&'a [u8]>)
    ensures
        match r {
            Some(v) => lookup(views(parts@), key@) == Some(v@),
            None => lookup(views(parts@), key@) is None,
        },
{
    let ghost all = views(parts@);
    let mut k: usize = 0;
    assert(all.subrange(0, all.len() as int) == all);
    while k < parts.len()
        invariant
            0 <= k <= parts@.len(),
            all == views(parts@),
            lookup(all, key@) == lookup(all.subrange(k as int, all.len() as int), key@),
        decreases parts@.len() - k,
    {
        let part = parts[k].as_slice();
        let ghost rest = all.subrange(k as int, all.len() as int);
        assert(rest[0] == part@);
        assert(rest.drop_first() == all.subrange(k + 1, all.len() as int));
        match first_colon(part) {
            Some(c) => {
                assert(c < part@.len());
                proof {
                    let j = choose|j: int| is_first_colon(part@, j);
                    assert(j == c as int);
                }
                let name = vstd::slice::slice_subrange(part, 0, c);
                assert(key_value(part@) == Some((name@, part@.subrange(c + 1, part@.len() as int))));
                if bytes_eq(name, key) {
                    let len = part.len();
                    let value = vstd::slice::slice_subrange(part, c + 1, len);
                    return Some(value);
                }
            },
            None => {
                assert(!exists|j: int| is_first_colon(part@, j));
            },
        }
        k = k + 1;
    }
    assert(all.subrange(k as int, all.len() as int).len() == 0);
    None
}

/// Reads `s` as an `i64` in decimal, with an optional sign.
pub fn parse_i64(s: &[u8]) -> (r: Option<i64>)
    ensures
        r == parsed_i64(s@),
{
    let n = s.len();
    let mut negative = false;
    let mut start: usize = 0;
    if n > 0 && s[0] == MINUS {
        negative = true;
        start = 1;
    } else if n > 0 && s[0] == PLUS {
        start = 1;
    }
    if start == n {
        proof {
            if n > 0 {
                assert(!is_digit(s@[0]));
            }
        }
        return None;
    }
    let ghost digits = s@.subrange(start as int, n as int);
    assert(start == 1 ==> digits == s@.drop_first());
    assert(start == 0 ==> digits == s@);
    let mut m: u128 = 0;
    let mut i: usize = start;
    while i < n
        invariant
            n == s@.len(),
            start <= i <= n,
            start < n,
            start == 0 || start == 1,
            start == 1 ==> s@[0] == MINUS || s@[0] == PLUS,
            start == 0 ==> s@[0] != MINUS && s@[0] != PLUS,
            negative == (start == 1 && s@[0] == MINUS),
            start == 1 ==> digits == s@.drop_first(),
            start == 0 ==> digits == s@,
            digits == s@.subrange(start as int, n as int),
            all_digits(s@.subrange(start as int, i as int)),
            m == digits_value(s@.subrange(start as int, i as int)),
            m <= 0x8000_0000_0000_0000,
        decreases n - i,
    {
        let b = s[i];
        let ghost before = s@.subrange(start as int, i as int);
        let ghost after = s@.subrange(start as int, i + 1);
        if b < 48 || b > 57 {
            assert(!is_digit(digits[i - start]));
            assert(!all_digits(digits));
            assert(!all_digits(s@));
            return None;
        }
        assert(after.drop_last() == before);
        assert(all_digits(after));
        m = m * 10 + (b - 48) as u128;
        if m > 0x8000_0000_0000_0000 {
            proof {
                if all_digits(digits) {
                    lemma_digits_value_monotone(digits, i + 1 - start);
                    assert(digits.subrange(0, i + 1 - start) == after);
                    assert(digits_value(digits) > 0x8000_0000_0000_0000);
                }
            }
            return None;
        }
        i = i + 1;
    }
    assert(s@.subrange(start as int, i as int) == digits);
    if negative {
        if m == 0x8000_0000_0000_0000 {
            Some(i64::MIN)
        } else {
            Some(-(m as i64))
        }
    } else if m > 0x7fff_ffff_ffff_ffff {
        None
    } else {
        Some(m as i64)
    }
}

/// The classifier reports progress each time this many records have gone by.
pub const RECORDS_PER_REPORT: u64 = 32767;

/// A field that every record must carry.
#[derive(Debug, Clone, Copy, PartialEq, Eq, Structural)]
pub enum Field {
    Id,
    Timestamp,
    State,
}

/// Why a record could not be classified.
#[derive(Debug, Clone, Copy, PartialEq, Eq, Structural)]
pub enum RecordError {
    /// The record has no such field (a malformed record).
    MissingField(Field),
    /// The field is not an integer in the range of `i64` (a malformed record).
    NotAnInteger(Field),
    /// The state is neither `STARTED` nor `FINISHED`.
    UnknownState,
}

pub open spec fn id_key() -> Seq<u8> {
    seq![105u8, 100u8]
}

pub open spec fn timestamp_key() -> Seq<u8> {
    seq![116u8, 105u8, 109u8, 101u8, 115u8, 116u8, 97u8, 109u8, 112u8]
}

pub open spec fn state_key() -> Seq<u8> {
    seq![115u8, 116u8, 97u8, 116u8, 101u8]
}

/// `STARTED`
pub open spec fn started_state() -> Seq<u8> {
    seq![83u8, 84u8, 65u8, 82u8, 84u8, 69u8, 68u8]
}

/// `FINISHED`
pub open spec fn finished_state() -> Seq<u8> {
    seq![70u8, 73u8, 78u8, 73u8, 83u8, 72u8, 69u8, 68u8]
}

/// What a raw record classifies as.
pub open spec fn classified(raw: Seq<u8>) -> Result<Entry, RecordError> {
    let parts = record_parts(raw);
    let id = lookup(parts, id_key());
    let timestamp = lookup(parts, timestamp_key());
    let state = lookup(parts, state_key());
    if id is None {
        Err(RecordError::MissingField(Field::Id))
    } else if timestamp is None {
        Err(RecordError::MissingField(Field::Timestamp))
    } else if state is None {
        Err(RecordError::MissingField(Field::State))
    } else if state->Some_0 != started_state() && state->Some_0 != finished_state() {
        Err(RecordError::UnknownState)
    } else if parsed_i64(id->Some_0) is None {
        Err(RecordError::NotAnInteger(Field::Id))
    } else if parsed_i64(timestamp->Some_0) is None {
        Err(RecordError::NotAnInteger(Field::Timestamp))
    } else if state->Some_0 == started_state() {
        Ok(
            Entry::Start(
                NewStartingLog {
                    log_id: parsed_i64(id->Some_0)->Some_0,
                    timestamp: parsed_i64(timestamp->Some_0)->Some_0,
                },
            ),
        )
    } else {
        Ok(
            Entry::Finish(
                NewFinishedLog {
                    log_id: parsed_i64(id->Some_0)->Some_0,
                    timestamp: parsed_i64(timestamp->Some_0)->Some_0,
                },
            ),
        )
    }
}

/// Reads a raw record into a start or finish event.
pub fn parse_record(raw: &[u8]) -> (r: Result<Entry, RecordError>)
    ensures
        r == classified(raw@),
{
    let parts = split_fields(raw);
    let id_name: [u8; 2] = [105, 100];
    let timestamp_name: [u8; 9] = [116, 105, 109, 101, 115, 116, 97, 109, 112];
    let state_name: [u8; 5] = [115, 116, 97, 116, 101];
    let started: [u8; 7] = [83, 84, 65, 82, 84, 69, 68];
    let finished: [u8; 8] = [70, 73, 78, 73, 83, 72, 69, 68];
    assert(id_name@ == id_key());
    assert(timestamp_name@ == timestamp_key());
    assert(state_name@ == state_key());
    assert(started@ == started_state());
    assert(finished@ == finished_state());
    let id = match find_field(&parts, id_name.as_slice()) {
        Some(v) => v,
        None => {
            return Err(RecordError::MissingField(Field::Id));
        },
    };
    let timestamp = match find_field(&parts, timestamp_name.as_slice()) {
        Some(v) => v,
        None => {
            return Err(RecordError::MissingField(Field::Timestamp));
        },
    };
    let state = match find_field(&parts, state_name.as_slice()) {
        Some(v) => v,
        None => {
            return Err(RecordError::MissingField(Field::State));
        },
    };
    let is_start = bytes_eq(state, started.as_slice());
    if !is_start && !bytes_eq(state, finished.as_slice()) {
        return Err(RecordError::UnknownState);
    }
    let log_id = match parse_i64(id) {
        Some(n) => n,
        None => {
            return Err(RecordError::NotAnInteger(Field::Id));
        },
    };
    let timestamp = match parse_i64(timestamp) {
        Some(n) => n,
        None => {
            return Err(RecordError::NotAnInteger(Field::Timestamp));
        },
    };
    if is_start {
        Ok(Entry::Start(NewStartingLog { log_id, timestamp }))
    } else {
        Ok(Entry::Finish(NewFinishedLog { log_id, timestamp }))
    }
}

/// The decimal digit `d` as a character.
pub open spec fn digit_char(d: nat) -> char {
    seq!['0', '1', '2', '3', '4', '5', '6', '7', '8', '9'][d as int]
}

/// The decimal digits of `n`, without leading zeros.
pub open spec fn digit_chars(n: nat) -> Seq<char>
    decreases n,
{
    if n < 10 {
        seq![digit_char(n)]
    } else {
        digit_chars(n / 10).push(digit_char(n % 10))
    }
}

/// `n` written in decimal, with a minus sign when it is negative.
pub open spec fn decimal_text(n: int) -> Seq<char> {
    if n < 0 {
        seq!['-'] + digit_chars((-n) as nat)
    } else {
        digit_chars(n as nat)
    }
}

/// The status line that names the record last classified.
pub open spec fn status_text(id: i64) -> Seq<char> {
    "parsing -> ID ["@ + decimal_text(id as int) + "]"@
}

/// Relies on `format!` and the `Display` impl of `i64`, which writes the
/// number in decimal with a leading minus sign when negative.
#[verifier::external_body]
fn status_line(id: i64) -> (r: String)
    ensures
        r@ == status_text(id),
{
    format!("parsing -> ID [{}]", id)
}

/// A classified record and the progress samples due after it.
pub struct Classified {
    pub entry: Entry,
    pub samples: Vec<Tracker>,
}

/// The record interpreter: classifies records and counts them.
pub struct Classifier {
    parsed_unreported: u64,
}

/// The id of an entry.
pub open spec fn entry_id(e: Entry) -> i64 {
    match e {
        Entry::Start(s) => s.log_id,
        Entry::Finish(f) => f.log_id,
    }
}

impl Classifier {
    /// Records classified since the last progress sample.
    pub closed spec fn parsed_unreported(&self) -> int {
        self.parsed_unreported as int
    }

    pub closed spec fn wf(&self) -> bool {
        self.parsed_unreported < RECORDS_PER_REPORT
    }

    pub fn new() -> (c: Classifier)
        ensures
            c.wf(),
            c.parsed_unreported() == 0,
    {
        Classifier { parsed_unreported: 0 }
    }

    /// Classifies one record. Every `RECORDS_PER_REPORT` records, the result
    /// carries a status line naming the record's id and a `LogsParsed` sample.
    pub fn classify(&mut self, raw: &[u8]) -> (r: Result<Classified, RecordError>)
        requires
            old(self).wf(),
        ensures
            final(self).wf(),
            match r {
                Ok(c) => {
                    &&& classified(raw@) == Ok::<Entry, RecordError>(c.entry)
                    &&& if old(self).parsed_unreported() + 1 == RECORDS_PER_REPORT {
                        &&& final(self).parsed_unreported() == 0
                        &&& c.samples@.len() == 2
                        &&& c.samples@[0] matches Tracker::LogsMessage(Some(t))
                        &&& t@ == status_text(entry_id(c.entry))
                        &&& c.samples@[1] == Tracker::LogsParsed(RECORDS_PER_REPORT)
                    } else {
                        &&& final(self).parsed_unreported() == old(self).parsed_unreported() + 1
                        &&& c.samples@.len() == 0
                    }
                },
                Err(e) => classified(raw@) == Err::<Entry, RecordError>(e) && *final(self)
                    == *old(self),
            },
    {
        let entry = match parse_record(raw) {
            Ok(e) => e,
            Err(e) => {
                return Err(e);
            },
        };
        let mut samples: Vec<Tracker> = Vec::new();
        self.parsed_unreported = self.parsed_unreported + 1;
        if self.parsed_unreported == RECORDS_PER_REPORT {
            let id = match entry {
                Entry::Start(s) => s.log_id,
                Entry::Finish(f) => f.log_id,
            };
            samples.push(Tracker::LogsMessage(Some(status_line(id))));
            samples.push(Tracker::LogsParsed(self.parsed_unreported));
            self.parsed_unreported = 0;
        }
        Ok(Classified { entry, samples })
    }

    /// Ends classification: the count of records classified since the last
    /// sample, then the closing status sample.
    pub fn finish(self) -> (samples: Vec<Tracker>)
        ensures
            samples@ == seq![Tracker::LogsParsed(self.parsed_unreported() as u64), Tracker::LogsMessage(None)],
    {
        let mut samples: Vec<Tracker> = Vec::new();
        samples.push(Tracker::LogsParsed(self.parsed_unreported));
        samples.push(Tracker::LogsMessage(None));
        samples
    }
}

} // verus!
