//! The wire format of the pipeline.
//!
//! `event_json` is the exact payload appended to the stream for one
//! lifecycle event; `response_json` is the exact body returned (and
//! cached) for one accepted batch. The event parser is proved sound —
//! whatever it accepts is the encoding of the event it returns — and
//! complete for every canonical encoding whose string fields need no
//! escaping, which is what the publisher emits.

use vstd::prelude::*;
use crate::models::PayoutEvent;
use crate::text::{
    dec_digits, digits_val, digit_value, esc, is_digit, json_safe, json_safe_char,
    lemma_dec_digits_shape, lemma_dec_digits_val, lemma_digits_canonical,
    lemma_digits_val_prefix_le, lemma_esc_identity, escape_json, u64_to_string,
};

verus! {

/// The stream payload of one payout lifecycle event.
pub open spec fn event_json(pid: u64, et: Seq<char>, ts: Seq<char>) -> Seq<char> {
    "{\"payout_id\":"@ + dec_digits(pid as nat) + ",\"event_type\":\""@ + esc(et)
        + "\",\"timestamp\":\""@ + esc(ts) + "\"}"@
}

/// Where each part of a canonical event payload sits, for fields that
/// need no escaping.
pub proof fn lemma_event_json_parts(pid: u64, et: Seq<char>, ts: Seq<char>, s: Seq<char>)
    requires
        s == event_json(pid, et, ts),
        json_safe(et),
        json_safe(ts),
    ensures
        s.len() == 45 + dec_digits(pid as nat).len() + et.len() + ts.len(),
        s.subrange(0, 13) == "{\"payout_id\":"@,
        "{\"payout_id\":"@.len() == 13,
        s.subrange(13, 13 + dec_digits(pid as nat).len() as int) == dec_digits(pid as nat),
        !is_digit(s[13 + dec_digits(pid as nat).len() as int]),
        s.subrange(13 + dec_digits(pid as nat).len() as int,
            28 + dec_digits(pid as nat).len() as int) == ",\"event_type\":\""@,
        ",\"event_type\":\""@.len() == 15,
        s.subrange(28 + dec_digits(pid as nat).len() as int,
            28 + dec_digits(pid as nat).len() + et.len() as int) == et,
        s[28 + dec_digits(pid as nat).len() + et.len() as int] == '"',
        s.subrange(28 + dec_digits(pid as nat).len() + et.len() as int,
            43 + dec_digits(pid as nat).len() + et.len() as int) == "\",\"timestamp\":\""@,
        "\",\"timestamp\":\""@.len() == 15,
        s.subrange(43 + dec_digits(pid as nat).len() + et.len() as int,
            43 + dec_digits(pid as nat).len() + et.len() + ts.len() as int) == ts,
        s[43 + dec_digits(pid as nat).len() + et.len() + ts.len() as int] == '"',
        s.subrange(43 + dec_digits(pid as nat).len() + et.len() + ts.len() as int,
            s.len() as int) == "\"}"@,
        "\"}"@.len() == 2,
{
    reveal_strlit("{\"payout_id\":");
    reveal_strlit(",\"event_type\":\"");
    reveal_strlit("\",\"timestamp\":\"");
    reveal_strlit("\"}");
    lemma_esc_identity(et);
    lemma_esc_identity(ts);
    let d = dec_digits(pid as nat);
    lemma_dec_digits_shape(pid as nat);
    assert(s.subrange(0, 13) =~= "{\"payout_id\":"@);
    assert(s.subrange(13, 13 + d.len() as int) =~= d);
    assert(s[13 + d.len() as int] == ',');
    assert(!is_digit(','));
    assert(s.subrange(13 + d.len() as int, 28 + d.len() as int) =~= ",\"event_type\":\""@);
    assert(s.subrange(28 + d.len() as int, 28 + d.len() + et.len() as int) =~= et);
    assert(s[28 + d.len() + et.len() as int] == '"');
    assert(s.subrange(28 + d.len() + et.len() as int, 43 + d.len() + et.len() as int)
        =~= "\",\"timestamp\":\""@);
    assert(s.subrange(43 + d.len() + et.len() as int, 43 + d.len() + et.len() + ts.len() as int)
        =~= ts);
    assert(s[43 + d.len() + et.len() + ts.len() as int] == '"');
    assert(s.subrange(43 + d.len() + et.len() + ts.len() as int, s.len() as int) =~= "\"}"@);
}

/// Encodes one lifecycle event as its stream payload.
pub fn encode_payout_event(payout_id: u64, event_type: &str, timestamp: &str) -> (r: String)
    ensures
        r@ == event_json(payout_id, event_type@, timestamp@),
{
    let mut s = String::from_str("{\"payout_id\":");
    let digits = u64_to_string(payout_id);
    s.append(digits.as_str());
    s.append(",\"event_type\":\"");
    let et = escape_json(event_type);
    s.append(et.as_str());
    s.append("\",\"timestamp\":\"");
    let ts = escape_json(timestamp);
    s.append(ts.as_str());
    s.append("\"}");
    s
}

/// Whether position `i` of `s` holds a decimal digit.
fn digit_at(s: &str, i: usize) -> (r: bool)
    requires
        i < s@.len(),
    ensures
        r == is_digit(s@[i as int]),
{
    let c = s.get_char(i);
    c >= '0' && c <= '9'
}

/// Whether `lit` occurs in `s` starting at position `i`.
fn match_lit(s: &str, i: usize, len: usize, lit: &str) -> (b: bool)
    requires
        i <= len,
        len == s@.len(),
    ensures
        b == (i + lit@.len() <= s@.len()
            && s@.subrange(i as int, i + lit@.len() as int) == lit@),
{
    let lit_len = lit.unicode_len();
    if lit_len > len - i {
        return false;
    }
    let mut j: usize = 0;
    while j < lit_len
        invariant
            j <= lit_len,
            i + lit_len <= len,
            len == s@.len(),
            lit_len == lit@.len(),
            forall|t: int| 0 <= t < j ==> s@[i + t] == lit@[t],
        decreases lit_len - j,
    {
        if s.get_char(i + j) != lit.get_char(j) {
            proof {
                assert(s@.subrange(i as int, i + lit@.len() as int) != lit@) by {
                    if s@.subrange(i as int, i + lit@.len() as int) == lit@ {
                        assert(s@.subrange(i as int, i + lit@.len() as int)[j as int]
                            == s@[i + j as int]);
                    }
                }
            }
            return false;
        }
        j = j + 1;
    }
    proof {
        assert(s@.subrange(i as int, i + lit@.len() as int) =~= lit@);
    }
    true
}

/// Parses a canonical decimal `u64` starting at `start`; on success the
/// consumed region is exactly the canonical form of the value and the
/// following character (if any) is not a digit.
fn parse_number(s: &str, start: usize, len: usize) -> (r: Option<(u64, usize)>)
    requires
        start <= len,
        len == s@.len(),
    ensures
        r matches Some(p) ==> start < p.1 <= len
            && s@.subrange(start as int, p.1 as int) == dec_digits(p.0 as nat)
            && (p.1 == len || !is_digit(s@[p.1 as int])),
        forall|pid: u64|
            (start + #[trigger] dec_digits(pid as nat).len() <= len
                && s@.subrange(start as int, start + dec_digits(pid as nat).len())
                    == dec_digits(pid as nat)
                && (start + dec_digits(pid as nat).len() == len
                    || !is_digit(s@[start + dec_digits(pid as nat).len()])))
            ==> r == Some((pid, (start + dec_digits(pid as nat).len()) as usize)),
{
    let mut end = start;
    while end < len && digit_at(s, end)
        invariant
            start <= end <= len,
            len == s@.len(),
            forall|t: int| start <= t < end ==> is_digit(#[trigger] s@[t]),
        decreases len - end,
    {
        end = end + 1;
    }
    // the maximal digit run is [start, end)
    if end == start {
        proof {
            assert forall|pid: u64| !(start + #[trigger] dec_digits(pid as nat).len() <= len
                && s@.subrange(start as int, start + dec_digits(pid as nat).len())
                    == dec_digits(pid as nat)
                && (start + dec_digits(pid as nat).len() == len
                    || !is_digit(s@[start + dec_digits(pid as nat).len()]))) by {
                let d = dec_digits(pid as nat);
                lemma_dec_digits_shape(pid as nat);
                if start + d.len() <= len
                    && s@.subrange(start as int, start + d.len()) == d {
                    assert(s@[start as int] == d[0]);
                    assert(is_digit(s@[start as int]));
                }
            }
        }
        return None;
    }
    if end - start > 1 && s.get_char(start) == '0' {
        proof {
            assert forall|pid: u64| !(start + #[trigger] dec_digits(pid as nat).len() <= len
                && s@.subrange(start as int, start + dec_digits(pid as nat).len())
                    == dec_digits(pid as nat)
                && (start + dec_digits(pid as nat).len() == len
                    || !is_digit(s@[start + dec_digits(pid as nat).len()]))) by {
                let d = dec_digits(pid as nat);
                lemma_dec_digits_shape(pid as nat);
                if start + d.len() <= len
                    && s@.subrange(start as int, start + d.len()) == d
                    && (start + d.len() == len || !is_digit(s@[start + d.len()])) {
                    assert(s@[start as int] == d[0]);
                    assert(d[0] == '0');
                    assert(pid == 0 && d.len() == 1);
                    // the run would stop right after the single zero
                    assert(is_digit(s@[start + 1 as int]));
                }
            }
        }
        return None;
    }
    let ghost run = s@.subrange(start as int, end as int);
    proof {
        // any canonical region at `start` is exactly the maximal run
        assert forall|pid: u64|
            (start + #[trigger] dec_digits(pid as nat).len() <= len
                && s@.subrange(start as int, start + dec_digits(pid as nat).len())
                    == dec_digits(pid as nat)
                && (start + dec_digits(pid as nat).len() == len
                    || !is_digit(s@[start + dec_digits(pid as nat).len()])))
            implies start + dec_digits(pid as nat).len() == end
                && digits_val(run) == pid by {
            let d = dec_digits(pid as nat);
            lemma_dec_digits_shape(pid as nat);
            if start + d.len() < end {
                assert(is_digit(s@[start + d.len()]));
            }
            if start + d.len() > end {
                assert(s@[end as int] == d[end - start]);
                assert(is_digit(s@[end as int]));
                assert(end < len);
            }
            assert(start + d.len() == end);
            assert(run =~= d);
            lemma_dec_digits_val(pid as nat);
        }
    }
    let mut acc: u64 = 0;
    let mut j = start;
    while j < end
        invariant
            start <= j <= end <= len,
            len == s@.len(),
            run == s@.subrange(start as int, end as int),
            forall|t: int| start <= t < end ==> is_digit(#[trigger] s@[t]),
            acc == digits_val(s@.subrange(start as int, j as int)),
            end == len || !is_digit(s@[end as int]),
            forall|pid: u64|
                (start + #[trigger] dec_digits(pid as nat).len() <= len
                    && s@.subrange(start as int, start + dec_digits(pid as nat).len())
                        == dec_digits(pid as nat)
                    && (start + dec_digits(pid as nat).len() == len
                        || !is_digit(s@[start + dec_digits(pid as nat).len()])))
                ==> start + dec_digits(pid as nat).len() == end && digits_val(run) == pid,
        decreases end - j,
    {
        let c = s.get_char(j);
        proof {
            assert(is_digit(s@[j as int]));
        }
        let d = (c as u32 - '0' as u32) as u64;
        proof {
            assert(d == digit_value(s@[j as int]));
            assert(d <= 9);
            assert(s@.subrange(start as int, j + 1 as int).drop_last()
                =~= s@.subrange(start as int, j as int));
            assert(s@.subrange(start as int, j + 1 as int).last() == s@[j as int]);
        }
        if acc > (u64::MAX - d) / 10 {
            proof {
                // a canonical value here would bound the accumulator
                assert forall|pid: u64| !(start + #[trigger] dec_digits(pid as nat).len() <= len
                    && s@.subrange(start as int, start + dec_digits(pid as nat).len())
                        == dec_digits(pid as nat)
                    && (start + dec_digits(pid as nat).len() == len
                        || !is_digit(s@[start + dec_digits(pid as nat).len()]))) by {
                    if start + dec_digits(pid as nat).len() <= len
                        && s@.subrange(start as int, start + dec_digits(pid as nat).len())
                            == dec_digits(pid as nat)
                        && (start + dec_digits(pid as nat).len() == len
                            || !is_digit(s@[start + dec_digits(pid as nat).len()])) {
                        // then digits_val(run) == pid and every prefix stays below it
                        assert(digits_val(run) == pid);
                        lemma_digits_val_prefix_le(run, j + 1 - start);
                        assert(run.take(j + 1 - start)
                            =~= s@.subrange(start as int, j + 1 as int));
                        assert(digits_val(s@.subrange(start as int, j + 1 as int)) <= pid);
                        assert(digits_val(s@.subrange(start as int, j + 1 as int))
                            == acc * 10 + d);
                        assert(acc * 10 + d <= u64::MAX);
                        assert(acc <= (u64::MAX - d) / 10) by (nonlinear_arith)
                            requires
                                acc * 10 + d <= u64::MAX,
                                0 <= d <= 9,
                                acc >= 0,
                        ;
                    }
                }
            }
            return None;
        }
        proof {
            assert(acc * 10 + d <= u64::MAX) by (nonlinear_arith)
                requires
                    acc <= (u64::MAX - d) / 10,
                    0 <= d <= 9,
                    acc >= 0,
            ;
        }
        acc = acc * 10 + d;
        j = j + 1;
    }
    proof {
        assert(run == s@.subrange(start as int, end as int));
        assert(acc == digits_val(run));
        lemma_digits_canonical(run);
        assert(s@.subrange(start as int, end as int) =~= dec_digits(acc as nat));
        assert(end == len || !is_digit(s@[end as int]));
    }
    Some((acc, end))
}

/// Parses an unescaped JSON string body up to its closing quote.
fn parse_string_at(s: &str, start: usize, len: usize) -> (r: Option<(String, usize)>)
    requires
        start <= len,
        len == s@.len(),
    ensures
        r matches Some(p) ==> start <= p.1 < len
            && s@[p.1 as int] == '"'
            && p.0@ == s@.subrange(start as int, p.1 as int)
            && json_safe(p.0@),
        forall|ts: Seq<char>|
            (#[trigger] json_safe(ts) && start + ts.len() < len
                && s@.subrange(start as int, start + ts.len() as int) == ts
                && s@[start + ts.len() as int] == '"')
            ==> (r matches Some(p) && p.0@ == ts && p.1 == start + ts.len()),
{
    let mut j = start;
    while j < len
        invariant
            start <= j <= len,
            len == s@.len(),
            forall|t: int| start <= t < j ==> json_safe_char(#[trigger] s@[t]),
        decreases len - j,
    {
        let c = s.get_char(j);
        if c == '"' {
            let body = s.substring_char(start, j).to_owned();
            proof {
                assert(body@ == s@.subrange(start as int, j as int));
                assert forall|t: int| 0 <= t < body@.len() implies json_safe_char(
                    #[trigger] body@[t],
                ) by {
                    assert(body@[t] == s@[start + t]);
                }
                assert forall|ts: Seq<char>|
                    (#[trigger] json_safe(ts) && start + ts.len() < len
                        && s@.subrange(start as int, start + ts.len() as int) == ts
                        && s@[start + ts.len() as int] == '"')
                    implies j == start + ts.len() by {
                    if start + ts.len() < j {
                        assert(s@[start + ts.len() as int] == '"');
                        assert(json_safe_char(s@[start + ts.len() as int]));
                    }
                    if start + ts.len() > j {
                        assert(s@[j as int] == ts[j - start]);
                        assert(json_safe_char(ts[j - start]));
                    }
                }
            }
            return Some((body, j));
        }
        if c == '\\' || (c as u32) < 32 {
            proof {
                assert(!json_safe_char(s@[j as int]));
                assert forall|ts: Seq<char>| !(#[trigger] json_safe(ts) && start + ts.len() < len
                    && s@.subrange(start as int, start + ts.len() as int) == ts
                    && s@[start + ts.len() as int] == '"') by {
                    if json_safe(ts) && start + ts.len() < len
                        && s@.subrange(start as int, start + ts.len() as int) == ts
                        && s@[start + ts.len() as int] == '"' {
                        if j < start + ts.len() {
                            assert(s@[j as int] == ts[j - start]);
                            assert(json_safe_char(ts[j - start]));
                        } else if j == start + ts.len() {
                            assert(s@[j as int] == '"');
                        } else {
                            assert(json_safe_char(s@[start + ts.len() as int]));
                        }
                    }
                }
            }
            return None;
        }
        j = j + 1;
    }
    proof {
        assert forall|ts: Seq<char>| !(#[trigger] json_safe(ts) && start + ts.len() < len
            && s@.subrange(start as int, start + ts.len() as int) == ts
            && s@[start + ts.len() as int] == '"') by {
            if json_safe(ts) && start + ts.len() < len
                && s@[start + ts.len() as int] == '"' {
                assert(json_safe_char(s@[start + ts.len() as int]));
            }
        }
    }
    None
}

/// Decodes a stream payload back into the event it carries: sound on
/// every input, and complete for the canonical payloads the publisher
/// emits.
#[verifier::rlimit(80)]
pub fn parse_payout_event(s: &str) -> (r: Option<PayoutEvent>)
    ensures
        r matches Some(ev) ==> s@ == event_json(ev.payout_id, ev.event_type@, ev.timestamp@)
            && json_safe(ev.event_type@) && json_safe(ev.timestamp@),
        forall|pid: u64, et: Seq<char>, ts: Seq<char>|
            (s@ == #[trigger] event_json(pid, et, ts) && json_safe(et) && json_safe(ts))
            ==> (r matches Some(ev) && ev.payout_id == pid && ev.event_type@ == et
                && ev.timestamp@ == ts),
{
    let len = s.unicode_len();
    proof {
        assert forall|pid: u64, et: Seq<char>, ts: Seq<char>|
            (s@ == #[trigger] event_json(pid, et, ts) && json_safe(et) && json_safe(ts))
            implies parses_to(s@, pid, et, ts) by {
            lemma_event_json_parts(pid, et, ts, s@);
        }
    }
    if !match_lit(s, 0, len, "{\"payout_id\":") {
        return None;
    }
    let l1 = "{\"payout_id\":".unicode_len();
    let num = parse_number(s, l1, len);
    let (pid, i2) = match num {
        None => { return None; },
        Some(p) => p,
    };
    if !match_lit(s, i2, len, ",\"event_type\":\"") {
        return None;
    }
    let l2 = ",\"event_type\":\"".unicode_len();
    let i3 = i2 + l2;
    let et_parsed = parse_string_at(s, i3, len);
    let (et, i4) = match et_parsed {
        None => { return None; },
        Some(p) => p,
    };
    if !match_lit(s, i4, len, "\",\"timestamp\":\"") {
        return None;
    }
    let l3 = "\",\"timestamp\":\"".unicode_len();
    let i5 = i4 + l3;
    let ts_parsed = parse_string_at(s, i5, len);
    let (ts, i6) = match ts_parsed {
        None => { return None; },
        Some(p) => p,
    };
    if !match_lit(s, i6, len, "\"}") {
        return None;
    }
    let l4 = "\"}".unicode_len();
    if i6 + l4 != len {
        return None;
    }
    proof {
        lemma_esc_identity(et@);
        lemma_esc_identity(ts@);
        assert(s@ =~= s@.subrange(0, l1 as int) + s@.subrange(l1 as int, i2 as int)
            + s@.subrange(i2 as int, i3 as int) + s@.subrange(i3 as int, i4 as int)
            + s@.subrange(i4 as int, i5 as int) + s@.subrange(i5 as int, i6 as int)
            + s@.subrange(i6 as int, len as int));
    }
    Some(PayoutEvent { payout_id: pid, event_type: et, timestamp: ts })
}

/// The positions of the parts of a canonical payload, as the parser
/// walks them.
pub open spec fn parses_to(s: Seq<char>, pid: u64, et: Seq<char>, ts: Seq<char>) -> bool {
    let d = dec_digits(pid as nat);
    &&& s.len() == 45 + d.len() + et.len() + ts.len()
    &&& s.subrange(0, 13) == "{\"payout_id\":"@
    &&& "{\"payout_id\":"@.len() == 13
    &&& s.subrange(13, 13 + d.len() as int) == d
    &&& !is_digit(s[13 + d.len() as int])
    &&& s.subrange(13 + d.len() as int, 28 + d.len() as int) == ",\"event_type\":\""@
    &&& ",\"event_type\":\""@.len() == 15
    &&& s.subrange(28 + d.len() as int, 28 + d.len() + et.len() as int) == et
    &&& s[28 + d.len() + et.len() as int] == '"'
    &&& s.subrange(28 + d.len() + et.len() as int, 43 + d.len() + et.len() as int)
        == "\",\"timestamp\":\""@
    &&& "\",\"timestamp\":\""@.len() == 15
    &&& s.subrange(43 + d.len() + et.len() as int, 43 + d.len() + et.len() + ts.len() as int)
        == ts
    &&& s[43 + d.len() + et.len() + ts.len() as int] == '"'
    &&& s.subrange(43 + d.len() + et.len() + ts.len() as int, s.len() as int) == "\"}"@
    &&& "\"}"@.len() == 2
}

/// The payload is the canonical encoding of some event whose string
/// fields need no escaping: exactly what the publisher emits, and
/// exactly what `parse_payout_event` accepts.
pub open spec fn is_canonical_event(p: Seq<char>) -> bool {
    exists|pid: u64, et: Seq<char>, ts: Seq<char>|
        p == #[trigger] event_json(pid, et, ts) && json_safe(et) && json_safe(ts)
}

/// The `(payout_id, event_type, timestamp)` fields of a canonical
/// payload; meaningful only where `is_canonical_event` holds.
pub open spec fn canonical_fields(p: Seq<char>) -> (u64, Seq<char>, Seq<char>) {
    choose|pid: u64, et: Seq<char>, ts: Seq<char>|
        p == #[trigger] event_json(pid, et, ts) && json_safe(et) && json_safe(ts)
}

/// One identifier list, comma-separated, as it appears inside the
/// response's JSON array.
pub open spec fn ids_json(ids: Seq<u64>) -> Seq<char>
    decreases ids.len(),
{
    if ids.len() == 0 {
        Seq::empty()
    } else if ids.len() == 1 {
        dec_digits(ids[0] as nat)
    } else {
        ids_json(ids.drop_last()) + seq![','] + dec_digits(ids.last() as nat)
    }
}

/// The response body of one accepted batch submission.
pub open spec fn response_json(bid: Seq<char>, ids: Seq<u64>) -> Seq<char> {
    "{\"batch_id\":\""@ + esc(bid) + "\",\"payout_ids\":["@ + ids_json(ids)
        + "],\"received_items\":"@ + dec_digits(ids.len()) + "}"@
}

/// Builds the response body for one accepted batch.
pub fn encode_batch_response(batch_id: &str, payout_ids: &Vec<u64>) -> (r: String)
    ensures
        r@ == response_json(batch_id@, payout_ids@),
{
    proof {
        reveal_strlit(",");
    }
    let mut s = String::from_str("{\"batch_id\":\"");
    let bid = escape_json(batch_id);
    s.append(bid.as_str());
    s.append("\",\"payout_ids\":[");
    let n = payout_ids.len();
    let mut i: usize = 0;
    let mut list = String::new();
    while i < n
        invariant
            i <= n,
            n == payout_ids@.len(),
            list@ == ids_json(payout_ids@.take(i as int)),
        decreases n - i,
    {
        proof {
            reveal_strlit(",");
            assert(payout_ids@.take(i + 1 as int).drop_last() =~= payout_ids@.take(i as int));
            assert(payout_ids@.take(i + 1 as int).last() == payout_ids@[i as int]);
            assert(","@ =~= seq![',']);
        }
        if i > 0 {
            list.append(",");
        }
        let digits = u64_to_string(payout_ids[i]);
        list.append(digits.as_str());
        proof {
            assert(list@ =~= ids_json(payout_ids@.take(i + 1 as int)));
        }
        i = i + 1;
    }
    proof {
        assert(payout_ids@.take(n as int) =~= payout_ids@);
    }
    s.append(list.as_str());
    s.append("],\"received_items\":");
    let count = u64_to_string(n as u64);
    s.append(count.as_str());
    s.append("}");
    s
}

} // verus!
