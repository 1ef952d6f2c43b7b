use vstd::prelude::*;

use crate::record::{finished_state, started_state, MINUS};

verus! {

/// The decimal digits of `n`, without leading zeros.
pub open spec fn digits_of(n: nat) -> Seq<u8>
    decreases n,
{
    if n < 10 {
        seq![(48 + n) as u8]
    } else {
        digits_of(n / 10).push((48 + n % 10) as u8)
    }
}

/// `n` in decimal, with a minus sign when it is negative.
pub open spec fn decimal_of(n: int) -> Seq<u8> {
    if n < 0 {
        seq![MINUS] + digits_of((-n) as nat)
    } else {
        digits_of(n as nat)
    }
}

/// `{"id":"`
pub open spec fn id_head() -> Seq<u8> {
    seq![123u8, 34, 105, 100, 34, 58, 34]
}

/// `","state":"`
pub open spec fn state_head() -> Seq<u8> {
    seq![34u8, 44, 34, 115, 116, 97, 116, 101, 34, 58, 34]
}

/// `","timestamp":"`
pub open spec fn timestamp_head() -> Seq<u8> {
    seq![34u8, 44, 34, 116, 105, 109, 101, 115, 116, 97, 109, 112, 34, 58, 34]
}

/// `"}`
pub open spec fn record_tail() -> Seq<u8> {
    seq![34u8, 125]
}

/// The state name of a start (`finished` false) or finish record.
pub open spec fn state_name(finished: bool) -> Seq<u8> {
    if finished {
        finished_state()
    } else {
        started_state()
    }
}

/// The text of a record: `{"id":"<id>","state":"<state>","timestamp":"<timestamp>"}`.
pub open spec fn encoded(id: i64, timestamp: i64, finished: bool) -> Seq<u8> {
    id_head() + decimal_of(id as int) + state_head() + state_name(finished) + timestamp_head()
        + decimal_of(timestamp as int) + record_tail()
}

fn push_all(out: &mut Vec<u8>, bytes: &[u8])
    ensures
        final(out)@ == old(out)@ + bytes@,
{
    let mut i: usize = 0;
    while i < bytes.len()
        invariant
            0 <= i <= bytes@.len(),
            out@ == old(out)@ + bytes@.subrange(0, i as int),
        decreases bytes@.len() - i,
    {
        out.push(bytes[i]);
        assert(bytes@.subrange(0, i + 1) == bytes@.subrange(0, i as int).push(bytes@[i as int]));
        i = i + 1;
    }
    assert(bytes@.subrange(0, i as int) == bytes@);
}

fn push_digits(out: &mut Vec<u8>, n: u64)
    ensures
        final(out)@ == old(out)@ + digits_of(n as nat),
    decreases n,
{
    if n >= 10 {
        push_digits(out, n / 10);
    }
    out.push((48 + n % 10) as u8);
    assert(n < 10 ==> n % 10 == n);
}

/// Appends `n` in decimal to `out`.
pub fn push_decimal(out: &mut Vec<u8>, n: i64)
    ensures
        final(out)@ == old(out)@ + decimal_of(n as int),
{
    if n < 0 {
        out.push(MINUS);
        let m = (-(n as i128)) as u64;
        let ghost mid = out@;
        push_digits(out, m);
        assert(old(out)@ + decimal_of(n as int) == old(out)@.push(MINUS) + digits_of(m as nat));
    } else {
        push_digits(out, n as u64);
    }
}

/// Writes one record in the input format.
pub fn encode_record(id: i64, timestamp: i64, finished: bool) -> (r: Vec<u8>)
    ensures
        r@ == encoded(id, timestamp, finished),
{
    let id_part: [u8; 7] = [123, 34, 105, 100, 34, 58, 34];
    let state_part: [u8; 11] = [34, 44, 34, 115, 116, 97, 116, 101, 34, 58, 34];
    let timestamp_part: [u8; 15] = [34, 44, 34, 116, 105, 109, 101, 115, 116, 97, 109, 112, 34, 58, 34];
    let tail: [u8; 2] = [34, 125];
    let started: [u8; 7] = [83, 84, 65, 82, 84, 69, 68];
    let finished_name: [u8; 8] = [70, 73, 78, 73, 83, 72, 69, 68];
    assert(id_part@ == id_head());
    assert(state_part@ == state_head());
    assert(timestamp_part@ == timestamp_head());
    assert(tail@ == record_tail());
    assert(started@ == started_state());
    assert(finished_name@ == finished_state());
    let mut r: Vec<u8> = Vec::new();
    push_all(&mut r, id_part.as_slice());
    push_decimal(&mut r, id);
    push_all(&mut r, state_part.as_slice());
    if finished {
        push_all(&mut r, finished_name.as_slice());
    } else {
        push_all(&mut r, started.as_slice());
    }
    push_all(&mut r, timestamp_part.as_slice());
    push_decimal(&mut r, timestamp);
    push_all(&mut r, tail.as_slice());
    assert(r@ == encoded(id, timestamp, finished));
    r
}

} // verus!
