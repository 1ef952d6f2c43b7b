use vstd::prelude::*;

use crate::encode::{
    decimal_of, digits_of, encoded, id_head, record_tail, state_head, state_name, timestamp_head,
};
use crate::model::{Entry, NewFinishedLog, NewStartingLog};
use crate::pipeline::classify_all;
use crate::record::{
    all_digits, classified, digits_value, finished_state, id_key, is_first_colon, is_structural,
    key_value, lookup, parsed_i64, record_parts, split_parts, started_state, state_key, stripped,
    timestamp_key, RecordError, COLON, COMMA, MINUS, OPEN_BRACE, QUOTE,
};
use crate::segment::{lemma_scan_chunks, scan, segments, CLOSING_BRACKET};

verus! {

/// The records of `ts` written one after the other.
pub open spec fn encoded_all(ts: Seq<(i64, i64, bool)>) -> Seq<u8>
    decreases ts.len(),
{
    if ts.len() == 0 {
        Seq::empty()
    } else {
        encoded_all(ts.drop_last()) + encoded(ts.last().0, ts.last().1, ts.last().2)
    }
}

/// The event that a tuple `(id, timestamp, finished)` stands for.
pub open spec fn entry_of(t: (i64, i64, bool)) -> Entry {
    if t.2 {
        Entry::Finish(NewFinishedLog { log_id: t.0, timestamp: t.1 })
    } else {
        Entry::Start(NewStartingLog { log_id: t.0, timestamp: t.1 })
    }
}

pub open spec fn entries_of(ts: Seq<(i64, i64, bool)>) -> Seq<Entry> {
    ts.map_values(|t: (i64, i64, bool)| entry_of(t))
}

/// `s` holds no byte `b`.
spec fn lacks(s: Seq<u8>, b: u8) -> bool {
    forall|i: int| 0 <= i < s.len() ==> #[trigger] s[i] != b
}

/// `s` holds no structural byte.
spec fn unstructured(s: Seq<u8>) -> bool {
    forall|i: int| 0 <= i < s.len() ==> !is_structural(#[trigger] s[i])
}

/// Bytes that are neither structural, nor a comma, a colon or a closing bracket.
spec fn plain(s: Seq<u8>) -> bool {
    &&& unstructured(s)
    &&& lacks(s, COMMA)
    &&& lacks(s, COLON)
    &&& lacks(s, CLOSING_BRACKET)
}

proof fn lemma_lacks_concat(a: Seq<u8>, b: Seq<u8>, x: u8)
    requires
        lacks(a, x),
        lacks(b, x),
    ensures
        lacks(a + b, x),
{
    assert forall|i: int| 0 <= i < (a + b).len() implies #[trigger] (a + b)[i] != x by {
        if i < a.len() {
            assert((a + b)[i] == a[i]);
        } else {
            assert((a + b)[i] == b[i - a.len()]);
        }
    }
}

proof fn lemma_unstructured_concat(a: Seq<u8>, b: Seq<u8>)
    requires
        unstructured(a),
        unstructured(b),
    ensures
        unstructured(a + b),
{
    assert forall|i: int| 0 <= i < (a + b).len() implies !is_structural(#[trigger] (a + b)[i]) by {
        if i < a.len() {
            assert((a + b)[i] == a[i]);
        } else {
            assert((a + b)[i] == b[i - a.len()]);
        }
    }
}

proof fn lemma_digits(m: nat)
    ensures
        all_digits(digits_of(m)),
        digits_of(m).len() >= 1,
        digits_value(digits_of(m)) == m,
    decreases m,
{
    let d = digits_of(m);
    assert(digits_value(Seq::<u8>::empty()) == 0);
    if m < 10 {
        assert(d.drop_last() == Seq::<u8>::empty());
        assert(d.last() == 48 + m);
    } else {
        lemma_digits(m / 10);
        assert(d.drop_last() == digits_of(m / 10));
        assert(d.last() == 48 + m % 10);
        assert((m / 10) * 10 + m % 10 == m) by (nonlinear_arith);
        assert forall|i: int| 0 <= i < d.len() implies crate::record::is_digit(#[trigger] d[i]) by {
            if i < d.len() - 1 {
                assert(d[i] == digits_of(m / 10)[i]);
            }
        }
    }
}

proof fn lemma_decimal(n: i64)
    ensures
        parsed_i64(decimal_of(n as int)) == Some(n),
        plain(decimal_of(n as int)),
{
    let s = decimal_of(n as int);
    if n < 0 {
        let m = (-n) as nat;
        lemma_digits(m);
        assert(s.drop_first() == digits_of(m));
        assert(s[0] == MINUS);
        assert forall|i: int| 0 <= i < s.len() implies s[i] == MINUS || crate::record::is_digit(
            #[trigger] s[i],
        ) by {
            if i > 0 {
                assert(s[i] == digits_of(m)[i - 1]);
            }
        }
    } else {
        lemma_digits(n as nat);
        assert(crate::record::is_digit(s[0]));
    }
}

proof fn lemma_stripped_concat(a: Seq<u8>, b: Seq<u8>)
    ensures
        stripped(a + b) == stripped(a) + stripped(b),
    decreases b.len(),
{
    if b.len() == 0 {
        assert(a + b == a);
        assert(stripped(a) + stripped(b) == stripped(a));
    } else {
        lemma_stripped_concat(a, b.drop_last());
        assert((a + b).drop_last() == a + b.drop_last());
        assert((a + b).last() == b.last());
        if !is_structural(b.last()) {
            assert((stripped(a) + stripped(b.drop_last())).push(b.last()) == stripped(a)
                + stripped(b.drop_last()).push(b.last()));
        }
    }
}

proof fn lemma_stripped_plain(s: Seq<u8>)
    requires
        unstructured(s),
    ensures
        stripped(s) == s,
    decreases s.len(),
{
    if s.len() > 0 {
        assert(unstructured(s.drop_last()));
        lemma_stripped_plain(s.drop_last());
        assert(!is_structural(s[s.len() - 1]));
        assert(s.drop_last().push(s.last()) == s);
    } else {
        assert(s =~= Seq::<u8>::empty());
    }
}

proof fn lemma_split_nonempty(s: Seq<u8>)
    ensures
        split_parts(s).len() >= 1,
    decreases s.len(),
{
    if s.len() > 0 {
        lemma_split_nonempty(s.drop_last());
    }
}

proof fn lemma_split_no_comma(s: Seq<u8>)
    requires
        lacks(s, COMMA),
    ensures
        split_parts(s) == seq![s],
    decreases s.len(),
{
    if s.len() > 0 {
        assert(lacks(s.drop_last(), COMMA));
        lemma_split_no_comma(s.drop_last());
        assert(s[s.len() - 1] != COMMA);
        assert(seq![s.drop_last()].drop_last() =~= Seq::<Seq<u8>>::empty());
        assert(Seq::<Seq<u8>>::empty().push(s) =~= seq![s]);
        assert(s.drop_last().push(s.last()) == s);
    } else {
        assert(s =~= Seq::<u8>::empty());
    }
}

proof fn lemma_split_concat(a: Seq<u8>, b: Seq<u8>)
    ensures
        split_parts(a + seq![COMMA] + b) == split_parts(a) + split_parts(b),
    decreases b.len(),
{
    let c = a + seq![COMMA];
    if b.len() == 0 {
        assert(c + b == c);
        assert(c.drop_last() == a);
        assert(split_parts(a).push(Seq::empty()) == split_parts(a) + split_parts(b));
    } else {
        lemma_split_concat(a, b.drop_last());
        lemma_split_nonempty(b.drop_last());
        assert((c + b).drop_last() == c + b.drop_last());
        assert((c + b).last() == b.last());
        let x = split_parts(a);
        let y = split_parts(b.drop_last());
        if b.last() == COMMA {
            assert((x + y).push(Seq::empty()) == x + y.push(Seq::empty()));
        } else {
            assert((x + y).drop_last() == x + y.drop_last());
            assert((x + y).last() == y.last());
            assert((x + y).drop_last().push((x + y).last().push(b.last())) == x + y.drop_last().push(
                y.last().push(b.last()),
            ));
        }
    }
}

proof fn lemma_key_value(k: Seq<u8>, v: Seq<u8>)
    requires
        forall|i: int| 0 <= i < k.len() ==> k[i] != COLON,
    ensures
        key_value(k + seq![COLON] + v) == Some((k, v)),
{
    let p = k + seq![COLON] + v;
    let n = k.len() as int;
    assert(is_first_colon(p, n));
    let j = choose|j: int| is_first_colon(p, j);
    assert(j == n);
    assert(p.subrange(0, n) == k);
    assert(p.subrange(n + 1, p.len() as int) == v);
}

proof fn lemma_scan_open(pending: Seq<u8>, s: Seq<u8>)
    requires
        lacks(s, CLOSING_BRACKET),
    ensures
        scan(pending, s) == (Seq::<Seq<u8>>::empty(), pending + s),
    decreases s.len(),
{
    if s.len() == 0 {
        assert(pending + s == pending);
    } else {
        assert(lacks(s.drop_last(), CLOSING_BRACKET));
        lemma_scan_open(pending, s.drop_last());
        assert(s[s.len() - 1] != CLOSING_BRACKET);
        assert((pending + s.drop_last()).push(s.last()) == pending + s);
    }
}

spec fn colon_sep() -> Seq<u8> {
    seq![QUOTE, COLON, QUOTE]
}

spec fn comma_sep() -> Seq<u8> {
    seq![QUOTE, COMMA, QUOTE]
}

proof fn lemma_short_pieces()
    ensures
        stripped(seq![OPEN_BRACE, QUOTE]) == Seq::<u8>::empty(),
        stripped(colon_sep()) == seq![COLON],
        stripped(comma_sep()) == seq![COMMA],
        stripped(record_tail()) == Seq::<u8>::empty(),
{
    reveal_with_fuel(stripped, 4);
    assert(seq![OPEN_BRACE, QUOTE].drop_last() =~= seq![OPEN_BRACE]);
    assert(seq![OPEN_BRACE].drop_last() =~= Seq::<u8>::empty());
    assert(colon_sep().drop_last() =~= seq![QUOTE, COLON]);
    assert(seq![QUOTE, COLON].drop_last() =~= seq![QUOTE]);
    assert(seq![QUOTE].drop_last() =~= Seq::<u8>::empty());
    assert(comma_sep().drop_last() =~= seq![QUOTE, COMMA]);
    assert(seq![QUOTE, COMMA].drop_last() =~= seq![QUOTE]);
    assert(record_tail().drop_last() =~= seq![QUOTE]);
    assert(Seq::<u8>::empty().push(COLON) =~= seq![COLON]);
    assert(Seq::<u8>::empty().push(COMMA) =~= seq![COMMA]);
}

proof fn lemma_words()
    ensures
        plain(id_key()),
        plain(state_key()),
        plain(timestamp_key()),
        plain(started_state()),
        plain(finished_state()),
        started_state() != finished_state(),
        id_key().len() == 2,
        state_key().len() == 5,
        timestamp_key().len() == 9,
{
    assert(started_state()[0] != finished_state()[0]);
}

/// Stripping a field head: its front, then a key without structural bytes,
/// then `":"`, of which only the colon stays.
proof fn lemma_head(head: Seq<u8>, front: Seq<u8>, key: Seq<u8>, front_stripped: Seq<u8>)
    requires
        head == front + key + colon_sep(),
        stripped(front) == front_stripped,
        unstructured(key),
    ensures
        stripped(head) == front_stripped + key + seq![COLON],
{
    lemma_short_pieces();
    lemma_stripped_concat(front, key);
    lemma_stripped_concat(front + key, colon_sep());
    lemma_stripped_plain(key);
}

proof fn lemma_heads()
    ensures
        stripped(id_head()) == id_key() + seq![COLON],
        stripped(state_head()) == seq![COMMA] + state_key() + seq![COLON],
        stripped(timestamp_head()) == seq![COMMA] + timestamp_key() + seq![COLON],
        stripped(record_tail()) == Seq::<u8>::empty(),
        lacks(id_head(), CLOSING_BRACKET),
        lacks(state_head(), CLOSING_BRACKET),
        lacks(timestamp_head(), CLOSING_BRACKET),
        record_tail() == seq![QUOTE].push(CLOSING_BRACKET),
{
    lemma_short_pieces();
    lemma_words();
    assert(id_head() =~= seq![OPEN_BRACE, QUOTE] + id_key() + colon_sep());
    assert(state_head() =~= comma_sep() + state_key() + colon_sep());
    assert(timestamp_head() =~= comma_sep() + timestamp_key() + colon_sep());
    lemma_head(id_head(), seq![OPEN_BRACE, QUOTE], id_key(), Seq::<u8>::empty());
    lemma_head(state_head(), comma_sep(), state_key(), seq![COMMA]);
    lemma_head(timestamp_head(), comma_sep(), timestamp_key(), seq![COMMA]);
    assert(Seq::<u8>::empty() + id_key() == id_key());
    assert(record_tail() =~= seq![QUOTE].push(CLOSING_BRACKET));
}

/// The content of a written record, once stripped.
proof fn lemma_stripped_encoded(id: i64, timestamp: i64, finished: bool)
    ensures
        stripped(encoded(id, timestamp, finished)) == id_key() + seq![COLON] + decimal_of(
            id as int,
        ) + seq![COMMA] + state_key() + seq![COLON] + state_name(finished) + seq![COMMA]
            + timestamp_key() + seq![COLON] + decimal_of(timestamp as int),
{
    let id_text = decimal_of(id as int);
    let time_text = decimal_of(timestamp as int);
    let st = state_name(finished);
    lemma_decimal(id);
    lemma_decimal(timestamp);
    lemma_heads();
    lemma_words();
    let a = id_head();
    let b = state_head();
    let c = timestamp_head();
    let t = record_tail();
    lemma_stripped_concat(a, id_text);
    lemma_stripped_concat(a + id_text, b);
    lemma_stripped_concat(a + id_text + b, st);
    lemma_stripped_concat(a + id_text + b + st, c);
    lemma_stripped_concat(a + id_text + b + st + c, time_text);
    lemma_stripped_concat(a + id_text + b + st + c + time_text, t);
    lemma_stripped_plain(id_text);
    lemma_stripped_plain(time_text);
    lemma_stripped_plain(st);
    assert(stripped(encoded(id, timestamp, finished)) =~= id_key() + seq![COLON] + id_text + seq![COMMA]
        + state_key() + seq![COLON] + st + seq![COMMA] + timestamp_key() + seq![COLON] + time_text);
}

/// The text of one field: `key:value`.
spec fn field_text(key: Seq<u8>, value: Seq<u8>) -> Seq<u8> {
    key + seq![COLON] + value
}

/// `key:value` holds no comma when neither the key nor the value does.
proof fn lemma_part(key: Seq<u8>, value: Seq<u8>)
    requires
        plain(key),
        plain(value),
    ensures
        lacks(field_text(key, value), COMMA),
        split_parts(field_text(key, value)) == seq![field_text(key, value)],
        key_value(field_text(key, value)) == Some((key, value)),
{
    assert(lacks(seq![COLON], COMMA));
    lemma_lacks_concat(key, seq![COLON], COMMA);
    lemma_lacks_concat(key + seq![COLON], value, COMMA);
    lemma_split_no_comma(key + seq![COLON] + value);
    lemma_key_value(key, value);
}

/// The parts of a written record: its three fields.
proof fn lemma_parts(id: i64, timestamp: i64, finished: bool)
    ensures
        record_parts(encoded(id, timestamp, finished)) == seq![
            field_text(id_key(), decimal_of(id as int)),
            field_text(state_key(), state_name(finished)),
            field_text(timestamp_key(), decimal_of(timestamp as int)),
        ],
{
    let id_text = decimal_of(id as int);
    let time_text = decimal_of(timestamp as int);
    let st = state_name(finished);
    lemma_decimal(id);
    lemma_decimal(timestamp);
    lemma_words();
    lemma_stripped_encoded(id, timestamp, finished);
    let first = field_text(id_key(), id_text);
    let second = field_text(state_key(), st);
    let third = field_text(timestamp_key(), time_text);
    lemma_part(id_key(), id_text);
    lemma_part(state_key(), st);
    lemma_part(timestamp_key(), time_text);
    let x = stripped(encoded(id, timestamp, finished));
    assert(x =~= first + seq![COMMA] + (second + seq![COMMA] + third));
    lemma_split_concat(first, second + seq![COMMA] + third);
    lemma_split_concat(second, third);
    assert(seq![first] + (seq![second] + seq![third]) =~= seq![first, second, third]);
}

proof fn lemma_part_key(key: Seq<u8>, value: Seq<u8>)
    requires
        plain(key),
    ensures
        key_value(field_text(key, value)) == Some((key, value)),
{
    lemma_key_value(key, value);
}

proof fn lemma_lookup_first(first: Seq<u8>, second: Seq<u8>, third: Seq<u8>, key: Seq<u8>, v: Seq<u8>)
    requires
        key_value(first) == Some((key, v)),
    ensures
        lookup(seq![first, second, third], key) == Some(v),
{
    assert(seq![first, second, third][0] == first);
}

proof fn lemma_lookup_skip(first: Seq<u8>, second: Seq<u8>, third: Seq<u8>, first_key: Seq<u8>, first_value: Seq<u8>, key: Seq<u8>)
    requires
        key_value(first) == Some((first_key, first_value)),
        first_key != key,
    ensures
        lookup(seq![first, second, third], key) == lookup(seq![second, third], key),
{
    assert(seq![first, second, third][0] == first);
    assert(seq![first, second, third].drop_first() =~= seq![second, third]);
}

proof fn lemma_lookup_skip2(second: Seq<u8>, third: Seq<u8>, second_key: Seq<u8>, second_value: Seq<u8>, key: Seq<u8>)
    requires
        key_value(second) == Some((second_key, second_value)),
        second_key != key,
    ensures
        lookup(seq![second, third], key) == lookup(seq![third], key),
{
    assert(seq![second, third][0] == second);
    assert(seq![second, third].drop_first() =~= seq![third]);
}

proof fn lemma_lookup_one(p: Seq<u8>, key: Seq<u8>, v: Seq<u8>)
    requires
        key_value(p) == Some((key, v)),
    ensures
        lookup(seq![p], key) == Some(v),
{
    assert(seq![p][0] == p);
}

proof fn lemma_lookup_second(first: Seq<u8>, second: Seq<u8>, third: Seq<u8>, first_key: Seq<u8>, first_value: Seq<u8>, key: Seq<u8>, v: Seq<u8>)
    requires
        key_value(first) == Some((first_key, first_value)),
        first_key != key,
        key_value(second) == Some((key, v)),
    ensures
        lookup(seq![first, second, third], key) == Some(v),
{
    lemma_lookup_skip(first, second, third, first_key, first_value, key);
    assert(seq![second, third][0] == second);
}

proof fn lemma_lookups(id_text: Seq<u8>, st: Seq<u8>, time_text: Seq<u8>)
    requires
        plain(id_text),
        plain(st),
        plain(time_text),
    ensures
        ({
            let parts = seq![
                field_text(id_key(), id_text),
                field_text(state_key(), st),
                field_text(timestamp_key(), time_text),
            ];
            &&& lookup(parts, id_key()) == Some(id_text)
            &&& lookup(parts, state_key()) == Some(st)
            &&& lookup(parts, timestamp_key()) == Some(time_text)
        }),
{
    lemma_words();
    let first = field_text(id_key(), id_text);
    let second = field_text(state_key(), st);
    let third = field_text(timestamp_key(), time_text);
    lemma_part_key(id_key(), id_text);
    lemma_part_key(state_key(), st);
    lemma_part_key(timestamp_key(), time_text);
    assert(id_key() != timestamp_key());
    assert(id_key() != state_key());
    assert(state_key() != timestamp_key());
    lemma_lookup_first(first, second, third, id_key(), id_text);
    lemma_lookup_second(first, second, third, id_key(), id_text, state_key(), st);
    lemma_lookup_skip(first, second, third, id_key(), id_text, timestamp_key());
    lemma_lookup_skip2(second, third, state_key(), st, timestamp_key());
    lemma_lookup_one(third, timestamp_key(), time_text);
}

/// A written record reads back as the event it was written from.
pub proof fn lemma_record_round_trip(id: i64, timestamp: i64, finished: bool)
    ensures
        classified(encoded(id, timestamp, finished)) == Ok::<Entry, RecordError>(
            entry_of((id, timestamp, finished)),
        ),
{
    lemma_decimal(id);
    lemma_decimal(timestamp);
    lemma_words();
    lemma_parts(id, timestamp, finished);
    lemma_lookups(decimal_of(id as int), state_name(finished), decimal_of(timestamp as int));
}

proof fn lemma_record_closed(id: i64, timestamp: i64, finished: bool)
    ensures
        scan(Seq::empty(), encoded(id, timestamp, finished)) == (
            seq![encoded(id, timestamp, finished)],
            Seq::<u8>::empty(),
        ),
{
    lemma_decimal(id);
    lemma_decimal(timestamp);
    lemma_heads();
    lemma_words();
    let e = encoded(id, timestamp, finished);
    let id_text = decimal_of(id as int);
    let time_text = decimal_of(timestamp as int);
    let st = state_name(finished);
    let body = id_head() + id_text + state_head() + st + timestamp_head() + time_text + seq![QUOTE];
    assert(e =~= body.push(CLOSING_BRACKET));
    assert(lacks(seq![QUOTE], CLOSING_BRACKET));
    lemma_lacks_concat(id_head(), id_text, CLOSING_BRACKET);
    lemma_lacks_concat(id_head() + id_text, state_head(), CLOSING_BRACKET);
    lemma_lacks_concat(id_head() + id_text + state_head(), st, CLOSING_BRACKET);
    lemma_lacks_concat(id_head() + id_text + state_head() + st, timestamp_head(), CLOSING_BRACKET);
    lemma_lacks_concat(id_head() + id_text + state_head() + st + timestamp_head(), time_text, CLOSING_BRACKET);
    lemma_lacks_concat(
        id_head() + id_text + state_head() + st + timestamp_head() + time_text,
        seq![QUOTE],
        CLOSING_BRACKET,
    );
    lemma_scan_open(Seq::empty(), body);
    assert(e.drop_last() == body);
    assert(Seq::<u8>::empty() + body == body);
}

proof fn lemma_segments_encoded_all(ts: Seq<(i64, i64, bool)>)
    ensures
        segments(encoded_all(ts)) == (
            ts.map_values(|t: (i64, i64, bool)| encoded(t.0, t.1, t.2)),
            Seq::<u8>::empty(),
        ),
    decreases ts.len(),
{
    let f = |t: (i64, i64, bool)| encoded(t.0, t.1, t.2);
    if ts.len() == 0 {
        assert(ts.map_values(f) == Seq::<Seq<u8>>::empty());
    } else {
        let init = ts.drop_last();
        let t = ts.last();
        lemma_segments_encoded_all(init);
        lemma_scan_chunks(Seq::empty(), encoded_all(init), encoded(t.0, t.1, t.2));
        lemma_record_closed(t.0, t.1, t.2);
        assert(ts.map_values(f) =~= init.map_values(f) + seq![encoded(t.0, t.1, t.2)]);
    }
}

proof fn lemma_classify_encoded(ts: Seq<(i64, i64, bool)>)
    ensures
        classify_all(ts.map_values(|t: (i64, i64, bool)| encoded(t.0, t.1, t.2))) == Ok::<
            Seq<Entry>,
            RecordError,
        >(entries_of(ts)),
    decreases ts.len(),
{
    let f = |t: (i64, i64, bool)| encoded(t.0, t.1, t.2);
    if ts.len() == 0 {
        assert(ts.map_values(f) =~= Seq::<Seq<u8>>::empty());
        assert(entries_of(ts) =~= Seq::<Entry>::empty());
    } else {
        let init = ts.drop_last();
        let t = ts.last();
        lemma_classify_encoded(init);
        lemma_record_round_trip(t.0, t.1, t.2);
        assert(ts.map_values(f).drop_last() =~= init.map_values(f));
        assert(entries_of(ts) =~= entries_of(init).push(entry_of(t)));
    }
}

/// Round trip: records written from `(id, timestamp, finished)` tuples and
/// laid end to end are cut, read and classified back into exactly those
/// events, in order. The events that each category deals out therefore do
/// not depend on the batch capacity or on the number of writers.
pub proof fn lemma_round_trip(ts: Seq<(i64, i64, bool)>)
    ensures
        classify_all(segments(encoded_all(ts)).0) == Ok::<Seq<Entry>, RecordError>(
            entries_of(ts),
        ),
{
    lemma_segments_encoded_all(ts);
    lemma_classify_encoded(ts);
}

} // verus!
