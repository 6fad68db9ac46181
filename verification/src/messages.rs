//! Protocol messages and their wire forms: the delta payload, agent hello,
//! document delta, and the anti-entropy request and response, each with an
//! encoder and a decoder proved to invert it.
//!
//! The decoders accept any header argument width and a message map that
//! omits its optional entry; they do expect the entries in the canonical
//! order and do not skip unknown entries.

use vstd::prelude::*;
use vstd::utf8::encode_utf8;
use crate::codec::{
    enc_bytes, enc_head, enc_json, enc_text, json_bounded, lemma_bytes_roundtrip,
    lemma_enc_json_len, lemma_head_match, lemma_json_roundtrip, lemma_starts_with_concat,
    lemma_text_roundtrip, parse_bytes_item, parse_item_head, parse_json_item, parse_text_item,
    spec_dec_bytes_at, spec_dec_json_at, spec_dec_text_at, spec_enc_array, spec_enc_bytes,
    spec_enc_json, spec_enc_text, spec_item_head_at, starts_with_at,
};
use crate::crdt::{Delta, DeltaView, EntryView, LwwRegister, MapEntry, OrMap, RegView};
use crate::bytes_be::{spec_u128_from_be_bytes, spec_u128_to_be_bytes, u128_from_be_bytes, u128_to_be_bytes};
use crate::hlc::{spec_ts_from_bytes, lemma_ts_from_bytes_roundtrip, Timestamp};
use crate::strutil::str_eq;
use crate::json::{JsonValue, JsonView};

verus! {

/// Errors of message serialization.
#[derive(Debug, Clone, PartialEq, Eq, Structural)]
pub enum MessageError {
    /// Serialization failed
    Serialize,
    /// Deserialization failed
    Deserialize,
}

impl MessageError {
    /// A human-readable rendering of the error.
    pub fn message(&self) -> (r: &'static str) {
        match self {
            MessageError::Serialize => "serialization failed",
            MessageError::Deserialize => "deserialization failed",
        }
    }
}

/// The wire form of a timestamp: its 28 bytes as a byte string item.
pub open spec fn spec_enc_ts(t: Timestamp) -> Seq<u8> {
    spec_enc_bytes(t.spec_bytes())
}

/// The timestamp item at a position.
pub open spec fn spec_dec_ts_at(b: Seq<u8>, pos: int) -> Option<(Timestamp, int)> {
    match spec_dec_bytes_at(b, pos) {
        Some((bs, p)) => if bs.len() == 28 {
            Some((spec_ts_from_bytes(bs), p))
        } else {
            None
        },
        None => None,
    }
}

/// A timestamp item reads back as written.
pub proof fn lemma_ts_roundtrip(b: Seq<u8>, pos: int, t: Timestamp)
    requires
        starts_with_at(b, pos, spec_enc_ts(t)),
    ensures
        spec_dec_ts_at(b, pos) == Some((t, pos + spec_enc_ts(t).len())),
        spec_enc_ts(t).len() == 37,
        pos + 37 <= b.len(),
{
    crate::bytes_be::lemma_be_bytes_properties();
    crate::hlc::lemma_timestamp_bytes_roundtrip();
    lemma_bytes_roundtrip(b, pos, t.spec_bytes());
    lemma_ts_from_bytes_roundtrip(t);
    assert(spec_enc_ts(t).len() == 9 + t.spec_bytes().len());
}

/// Append a timestamp item.
pub fn enc_ts(out: &mut Vec<u8>, t: &Timestamp)
    ensures
        final(out)@ == old(out)@ + spec_enc_ts(*t),
{
    let bs = t.to_bytes();
    enc_bytes(out, bs.as_slice());
}

/// Parse a timestamp item.
pub fn parse_ts(bytes: &[u8], pos: usize) -> (r: Result<(Timestamp, usize), ()>)
    ensures
        r matches Ok((t, p)) ==> spec_dec_ts_at(bytes@, pos as int) == Some((t, p as int)) && pos
            < p <= bytes@.len(),
        r is Err ==> spec_dec_ts_at(bytes@, pos as int) is None,
{
    match parse_bytes_item(bytes, pos) {
        Ok((bs, p)) => {
            if bs.len() != 28 {
                return Err(());
            }
            match Timestamp::from_bytes(bs.as_slice()) {
                Ok(t) => {
                    proof {
                        assert(bs@.subrange(0, 28) =~= bs@);
                        crate::hlc::lemma_timestamp_bytes_roundtrip();
                        lemma_ts_from_bytes_roundtrip(t);
                    }
                    Ok((t, p))
                },
                Err(_) => Err(()),
            }
        },
        Err(()) => Err(()),
    }
}

/// The wire form of one insert: an array of the key, the value and the
/// stamp.
pub open spec fn spec_enc_ins(e: (Seq<char>, JsonView, Timestamp)) -> Seq<u8> {
    spec_enc_array(3) + spec_enc_text(e.0) + spec_enc_json(e.1) + spec_enc_ts(e.2)
}

/// The wire form of one removal: an array of the key and the stamp.
pub open spec fn spec_enc_rem(e: (Seq<char>, Timestamp)) -> Seq<u8> {
    spec_enc_array(2) + spec_enc_text(e.0) + spec_enc_ts(e.1)
}

pub open spec fn spec_enc_ins_seq(es: Seq<(Seq<char>, JsonView, Timestamp)>) -> Seq<u8>
    decreases es.len(),
{
    if es.len() == 0 {
        Seq::empty()
    } else {
        spec_enc_ins(es[0]) + spec_enc_ins_seq(es.drop_first())
    }
}

pub open spec fn spec_enc_rem_seq(es: Seq<(Seq<char>, Timestamp)>) -> Seq<u8>
    decreases es.len(),
{
    if es.len() == 0 {
        Seq::empty()
    } else {
        spec_enc_rem(es[0]) + spec_enc_rem_seq(es.drop_first())
    }
}

/// The wire form of a delta: the insert list and the removal list.
pub open spec fn spec_enc_delta(d: DeltaView) -> Seq<u8> {
    spec_enc_array(2) + spec_enc_array(d.inserts.len() as u64) + spec_enc_ins_seq(d.inserts)
        + spec_enc_array(d.removes.len() as u64) + spec_enc_rem_seq(d.removes)
}

/// Whether a delta fits the wire's length fields.
pub open spec fn delta_bounded(d: DeltaView) -> bool {
    &&& d.inserts.len() <= u64::MAX
    &&& d.removes.len() <= u64::MAX
    &&& forall|i: int|
        0 <= i < d.inserts.len() ==> encode_utf8(#[trigger] d.inserts[i].0).len() <= u64::MAX
            && json_bounded(d.inserts[i].1)
    &&& forall|i: int|
        0 <= i < d.removes.len() ==> encode_utf8(#[trigger] d.removes[i].0).len() <= u64::MAX
}

pub open spec fn spec_dec_ins_at(b: Seq<u8>, pos: int) -> Option<
    ((Seq<char>, JsonView, Timestamp), int),
> {
    match spec_item_head_at(b, pos) {
        Some((m, n, p)) => if m == 4 && n == 3 {
            match spec_dec_text_at(b, p) {
                Some((k, p1)) => match spec_dec_json_at(b, p1) {
                    Some((v, p2)) => if 0 <= p2 {
                        match spec_dec_ts_at(b, p2) {
                            Some((t, p3)) => Some(((k, v, t), p3)),
                            None => None,
                        }
                    } else {
                        None
                    },
                    None => None,
                },
                None => None,
            }
        } else {
            None
        },
        None => None,
    }
}

pub open spec fn spec_dec_rem_at(b: Seq<u8>, pos: int) -> Option<((Seq<char>, Timestamp), int)> {
    match spec_item_head_at(b, pos) {
        Some((m, n, p)) => if m == 4 && n == 2 {
            match spec_dec_text_at(b, p) {
                Some((k, p1)) => match spec_dec_ts_at(b, p1) {
                    Some((t, p2)) => Some(((k, t), p2)),
                    None => None,
                },
                None => None,
            }
        } else {
            None
        },
        None => None,
    }
}

pub open spec fn spec_dec_ins_seq_at(b: Seq<u8>, pos: int, n: u64) -> Option<
    (Seq<(Seq<char>, JsonView, Timestamp)>, int),
>
    decreases n,
{
    if n == 0 {
        Some((Seq::empty(), pos))
    } else {
        match spec_dec_ins_at(b, pos) {
            Some((e, p)) => if pos < p && p <= b.len() {
                match spec_dec_ins_seq_at(b, p, (n - 1) as u64) {
                    Some((rest, p2)) => Some((seq![e] + rest, p2)),
                    None => None,
                }
            } else {
                None
            },
            None => None,
        }
    }
}

pub open spec fn spec_dec_rem_seq_at(b: Seq<u8>, pos: int, n: u64) -> Option<
    (Seq<(Seq<char>, Timestamp)>, int),
>
    decreases n,
{
    if n == 0 {
        Some((Seq::empty(), pos))
    } else {
        match spec_dec_rem_at(b, pos) {
            Some((e, p)) => if pos < p && p <= b.len() {
                match spec_dec_rem_seq_at(b, p, (n - 1) as u64) {
                    Some((rest, p2)) => Some((seq![e] + rest, p2)),
                    None => None,
                }
            } else {
                None
            },
            None => None,
        }
    }
}

/// The delta at a position.
#[verifier::opaque]
pub open spec fn spec_dec_delta_at(b: Seq<u8>, pos: int) -> Option<(DeltaView, int)> {
    match spec_item_head_at(b, pos) {
        Some((m0, two, p0)) => if m0 == 4 && two == 2 {
            match spec_item_head_at(b, p0) {
                Some((m1, n1, p1)) => if m1 == 4 {
                    match spec_dec_ins_seq_at(b, p1, n1) {
                        Some((ins, p2)) => match spec_item_head_at(b, p2) {
                            Some((m2, n2, p3)) => if m2 == 4 {
                                match spec_dec_rem_seq_at(b, p3, n2) {
                                    Some((rem, p4)) => Some(
                                        (DeltaView { inserts: ins, removes: rem }, p4),
                                    ),
                                    None => None,
                                }
                            } else {
                                None
                            },
                            None => None,
                        },
                        None => None,
                    }
                } else {
                    None
                },
                None => None,
            }
        } else {
            None
        },
        None => None,
    }
}

/// One insert reads back as written.
pub proof fn lemma_ins_roundtrip(b: Seq<u8>, pos: int, e: (Seq<char>, JsonView, Timestamp))
    requires
        encode_utf8(e.0).len() <= u64::MAX,
        json_bounded(e.1),
        starts_with_at(b, pos, spec_enc_ins(e)),
    ensures
        spec_dec_ins_at(b, pos) == Some((e, pos + spec_enc_ins(e).len())),
        spec_enc_ins(e).len() >= 1,
{
    crate::bytes_be::lemma_be_bytes_properties();
    assert(spec_enc_ins(e) =~= spec_enc_array(3) + (spec_enc_text(e.0) + (spec_enc_json(e.1)
        + spec_enc_ts(e.2))));
    lemma_starts_with_concat(
        b,
        pos,
        spec_enc_array(3),
        spec_enc_text(e.0) + (spec_enc_json(e.1) + spec_enc_ts(e.2)),
    );
    lemma_head_match(b, pos, 4, 3);
    let p = pos + 9;
    lemma_starts_with_concat(b, p, spec_enc_text(e.0), spec_enc_json(e.1) + spec_enc_ts(e.2));
    lemma_text_roundtrip(b, p, e.0);
    let p1 = p + spec_enc_text(e.0).len() as int;
    lemma_starts_with_concat(b, p1, spec_enc_json(e.1), spec_enc_ts(e.2));
    lemma_json_roundtrip(b, p1, e.1);
    lemma_enc_json_len(e.1);
    let p2 = p1 + spec_enc_json(e.1).len() as int;
    lemma_ts_roundtrip(b, p2, e.2);
}

/// One removal reads back as written.
pub proof fn lemma_rem_roundtrip(b: Seq<u8>, pos: int, e: (Seq<char>, Timestamp))
    requires
        encode_utf8(e.0).len() <= u64::MAX,
        starts_with_at(b, pos, spec_enc_rem(e)),
    ensures
        spec_dec_rem_at(b, pos) == Some((e, pos + spec_enc_rem(e).len())),
        spec_enc_rem(e).len() >= 1,
{
    crate::bytes_be::lemma_be_bytes_properties();
    assert(spec_enc_rem(e) =~= spec_enc_array(2) + (spec_enc_text(e.0) + spec_enc_ts(e.1)));
    lemma_starts_with_concat(b, pos, spec_enc_array(2), spec_enc_text(e.0) + spec_enc_ts(e.1));
    lemma_head_match(b, pos, 4, 2);
    let p = pos + 9;
    lemma_starts_with_concat(b, p, spec_enc_text(e.0), spec_enc_ts(e.1));
    lemma_text_roundtrip(b, p, e.0);
    let p1 = p + spec_enc_text(e.0).len() as int;
    lemma_ts_roundtrip(b, p1, e.1);
}

/// A run of inserts reads back as written.
pub proof fn lemma_ins_seq_roundtrip(b: Seq<u8>, pos: int, es: Seq<(Seq<char>, JsonView, Timestamp)>)
    requires
        es.len() <= u64::MAX,
        forall|i: int|
            0 <= i < es.len() ==> encode_utf8(#[trigger] es[i].0).len() <= u64::MAX
                && json_bounded(es[i].1),
        starts_with_at(b, pos, spec_enc_ins_seq(es)),
    ensures
        spec_dec_ins_seq_at(b, pos, es.len() as u64) == Some(
            (es, pos + spec_enc_ins_seq(es).len()),
        ),
    decreases es.len(),
{
    reveal_with_fuel(spec_enc_ins_seq, 2);
    if es.len() == 0 {
        assert(spec_enc_ins_seq(es).len() == 0);
    } else {
        let head = spec_enc_ins(es[0]);
        let rest = es.drop_first();
        assert(spec_enc_ins_seq(es) =~= head + spec_enc_ins_seq(rest));
        lemma_starts_with_concat(b, pos, head, spec_enc_ins_seq(rest));
        lemma_ins_roundtrip(b, pos, es[0]);
        let p = pos + head.len() as int;
        assert forall|i: int|
            0 <= i < rest.len() implies encode_utf8(#[trigger] rest[i].0).len() <= u64::MAX
            && json_bounded(rest[i].1) by {
            assert(rest[i] == es[i + 1]);
        }
        lemma_ins_seq_roundtrip(b, p, rest);
        assert(seq![es[0]] + rest =~= es);
    }
}

/// A run of removals reads back as written.
pub proof fn lemma_rem_seq_roundtrip(b: Seq<u8>, pos: int, es: Seq<(Seq<char>, Timestamp)>)
    requires
        es.len() <= u64::MAX,
        forall|i: int| 0 <= i < es.len() ==> encode_utf8(#[trigger] es[i].0).len() <= u64::MAX,
        starts_with_at(b, pos, spec_enc_rem_seq(es)),
    ensures
        spec_dec_rem_seq_at(b, pos, es.len() as u64) == Some(
            (es, pos + spec_enc_rem_seq(es).len()),
        ),
    decreases es.len(),
{
    reveal_with_fuel(spec_enc_rem_seq, 2);
    if es.len() == 0 {
        assert(spec_enc_rem_seq(es).len() == 0);
    } else {
        let head = spec_enc_rem(es[0]);
        let rest = es.drop_first();
        assert(spec_enc_rem_seq(es) =~= head + spec_enc_rem_seq(rest));
        lemma_starts_with_concat(b, pos, head, spec_enc_rem_seq(rest));
        lemma_rem_roundtrip(b, pos, es[0]);
        let p = pos + head.len() as int;
        assert forall|i: int|
            0 <= i < rest.len() implies encode_utf8(#[trigger] rest[i].0).len() <= u64::MAX by {
            assert(rest[i] == es[i + 1]);
        }
        lemma_rem_seq_roundtrip(b, p, rest);
        assert(seq![es[0]] + rest =~= es);
    }
}

/// The wire round trip for delta payloads: a bounded delta reads back from
/// its own encoding unchanged.
pub proof fn lemma_delta_roundtrip(b: Seq<u8>, pos: int, d: DeltaView)
    requires
        delta_bounded(d),
        starts_with_at(b, pos, spec_enc_delta(d)),
    ensures
        spec_dec_delta_at(b, pos) == Some((d, pos + spec_enc_delta(d).len())),
{
    reveal(spec_dec_delta_at);
    crate::bytes_be::lemma_be_bytes_properties();
    assert(spec_enc_delta(d) =~= spec_enc_array(2) + (spec_enc_array(d.inserts.len() as u64) + (
    spec_enc_ins_seq(d.inserts) + (spec_enc_array(d.removes.len() as u64) + spec_enc_rem_seq(
        d.removes,
    )))));
    lemma_starts_with_concat(
        b,
        pos,
        spec_enc_array(2),
        spec_enc_array(d.inserts.len() as u64) + (spec_enc_ins_seq(d.inserts) + (spec_enc_array(
            d.removes.len() as u64,
        ) + spec_enc_rem_seq(d.removes))),
    );
    lemma_head_match(b, pos, 4, 2);
    let p0 = pos + 9;
    lemma_starts_with_concat(
        b,
        p0,
        spec_enc_array(d.inserts.len() as u64),
        spec_enc_ins_seq(d.inserts) + (spec_enc_array(d.removes.len() as u64) + spec_enc_rem_seq(
            d.removes,
        )),
    );
    lemma_head_match(b, p0, 4, d.inserts.len() as u64);
    let p1 = p0 + 9;
    lemma_starts_with_concat(
        b,
        p1,
        spec_enc_ins_seq(d.inserts),
        spec_enc_array(d.removes.len() as u64) + spec_enc_rem_seq(d.removes),
    );
    lemma_ins_seq_roundtrip(b, p1, d.inserts);
    let p2 = p1 + spec_enc_ins_seq(d.inserts).len() as int;
    lemma_starts_with_concat(
        b,
        p2,
        spec_enc_array(d.removes.len() as u64),
        spec_enc_rem_seq(d.removes),
    );
    lemma_head_match(b, p2, 4, d.removes.len() as u64);
    let p3 = p2 + 9;
    lemma_rem_seq_roundtrip(b, p3, d.removes);
}

impl Delta {
    /// Serialize to the wire form.
    #[verifier::rlimit(80)]
    #[verifier::spinoff_prover]
    pub fn to_cbor(&self) -> (r: Result<Vec<u8>, MessageError>)
        ensures
            r is Ok,
            r matches Ok(out) ==> out@ == spec_enc_delta(self@) && delta_bounded(self@),
    {
        let mut out: Vec<u8> = Vec::new();
        enc_head(&mut out, 4, 2);
        enc_head(&mut out, 4, self.inserts.len() as u64);
        let ghost base = out@;
        let ni = self.inserts.len();
        let mut i: usize = 0;
        proof {
            assert(self@.inserts.take(0) =~= Seq::<(Seq<char>, JsonView, Timestamp)>::empty());
            assert(base + spec_enc_ins_seq(self@.inserts.take(0)) =~= base);
        }
        while i < ni
            invariant
                ni == self.inserts@.len(),
                i <= ni,
                self@.inserts.len() == ni,
                out@ == base + spec_enc_ins_seq(self@.inserts.take(i as int)),
                forall|k: int|
                    0 <= k < i ==> encode_utf8(#[trigger] self@.inserts[k].0).len() <= u64::MAX
                        && json_bounded(self@.inserts[k].1),
            decreases ni - i,
        {
            enc_head(&mut out, 4, 3);
            enc_text(&mut out, self.inserts[i].0.as_str());
            let mid = out.len();
            proof {
                assert(encode_utf8(self.inserts@[i as int].0@).len() <= mid);
            }
            enc_json(&mut out, &self.inserts[i].1);
            enc_ts(&mut out, &self.inserts[i].2);
            i += 1;
            proof {
                lemma_enc_ins_seq_snoc(self@.inserts.take(i - 1), self@.inserts[i - 1]);
                assert(self@.inserts.take(i as int) =~= self@.inserts.take(i - 1).push(
                    self@.inserts[i - 1],
                ));
                assert(self@.inserts[i - 1] == (
                    self.inserts@[i - 1].0@,
                    self.inserts@[i - 1].1@,
                    self.inserts@[i - 1].2,
                ));
                assert(spec_enc_ins(self@.inserts[i - 1]) =~= spec_enc_array(3) + spec_enc_text(
                    self@.inserts[i - 1].0,
                ) + spec_enc_json(self@.inserts[i - 1].1) + spec_enc_ts(self@.inserts[i - 1].2));
                assert(out@ =~= base + spec_enc_ins_seq(self@.inserts.take(i as int)));
            }
        }
        proof {
            assert(self@.inserts.take(ni as int) =~= self@.inserts);
        }
        enc_head(&mut out, 4, self.removes.len() as u64);
        let ghost base2 = out@;
        let nr = self.removes.len();
        let mut i: usize = 0;
        proof {
            assert(self@.removes.take(0) =~= Seq::<(Seq<char>, Timestamp)>::empty());
            assert(base2 + spec_enc_rem_seq(self@.removes.take(0)) =~= base2);
        }
        while i < nr
            invariant
                nr == self.removes@.len(),
                i <= nr,
                self@.removes.len() == nr,
                out@ == base2 + spec_enc_rem_seq(self@.removes.take(i as int)),
                base2 == base + spec_enc_ins_seq(self@.inserts) + spec_enc_array(nr as u64),
                forall|k: int|
                    0 <= k < i ==> encode_utf8(#[trigger] self@.removes[k].0).len() <= u64::MAX,
            decreases nr - i,
        {
            enc_head(&mut out, 4, 2);
            enc_text(&mut out, self.removes[i].0.as_str());
            let mid = out.len();
            proof {
                assert(encode_utf8(self.removes@[i as int].0@).len() <= mid);
            }
            enc_ts(&mut out, &self.removes[i].1);
            i += 1;
            proof {
                lemma_enc_rem_seq_snoc(self@.removes.take(i - 1), self@.removes[i - 1]);
                assert(self@.removes.take(i as int) =~= self@.removes.take(i - 1).push(
                    self@.removes[i - 1],
                ));
                assert(self@.removes[i - 1] == (
                    self.removes@[i - 1].0@,
                    self.removes@[i - 1].1,
                ));
                assert(spec_enc_rem(self@.removes[i - 1]) =~= spec_enc_array(2) + spec_enc_text(
                    self@.removes[i - 1].0,
                ) + spec_enc_ts(self@.removes[i - 1].1));
                assert(out@ =~= base2 + spec_enc_rem_seq(self@.removes.take(i as int)));
            }
        }
        proof {
            assert(self@.removes.take(nr as int) =~= self@.removes);
            assert(out@ =~= spec_enc_delta(self@));
        }
        Ok(out)
    }

    /// Deserialize from the wire form.
    pub fn from_cbor(bytes: &[u8]) -> (r: Result<Delta, MessageError>)
        ensures
            r matches Ok(d) ==> (spec_dec_delta_at(bytes@, 0) matches Some(q) && q.0 == d@),
            r is Err ==> spec_dec_delta_at(bytes@, 0) is None,
    {
        proof {
            reveal(spec_dec_delta_at);
        }
        let (m0, two, p0) = match parse_item_head(bytes, 0) {
            Ok(h) => h,
            Err(()) => {
                return Err(MessageError::Deserialize);
            },
        };
        if m0 != 4 || two != 2 {
            return Err(MessageError::Deserialize);
        }
        let (m1, n1, p1) = match parse_item_head(bytes, p0) {
            Ok(h) => h,
            Err(()) => {
                return Err(MessageError::Deserialize);
            },
        };
        if m1 != 4 {
            return Err(MessageError::Deserialize);
        }
        let ghost ins_target = spec_dec_ins_seq_at(bytes@, p1 as int, n1);
        let mut inserts: Vec<(String, JsonValue, Timestamp)> = Vec::new();
        let mut cur = p1;
        let mut rem_count = n1;
        while rem_count > 0
            invariant
                0 < cur <= bytes@.len(),
                (match spec_dec_ins_seq_at(bytes@, cur as int, rem_count) {
                    Some((rest, pend)) => ins_target == Some::<
                        (Seq<(Seq<char>, JsonView, Timestamp)>, int),
                    >((
                        inserts@.map_values(
                            |e: (String, JsonValue, Timestamp)| (e.0@, e.1@, e.2),
                        ) + rest,
                        pend,
                    )),
                    None => ins_target is None,
                }),
            decreases rem_count,
        {
            let ghost pre = inserts@;
            let e = match parse_ins(bytes, cur) {
                Ok(e) => e,
                Err(()) => {
                    return Err(MessageError::Deserialize);
                },
            };
            let next = e.3;
            inserts.push((e.0, e.1, e.2));
            proof {
                let f = |e: (String, JsonValue, Timestamp)| (e.0@, e.1@, e.2);
                assert(inserts@.map_values(f) =~= pre.map_values(f).push(
                    (inserts@.last().0@, inserts@.last().1@, inserts@.last().2),
                ));
                assert(match spec_dec_ins_seq_at(bytes@, next as int, (rem_count - 1) as u64) {
                    Some((rest, pend)) => pre.map_values(f) + (seq![
                        (inserts@.last().0@, inserts@.last().1@, inserts@.last().2),
                    ] + rest) =~= inserts@.map_values(f) + rest,
                    None => true,
                });
            }
            cur = next;
            rem_count = rem_count - 1;
        }
        proof {
            assert(inserts@.map_values(|e: (String, JsonValue, Timestamp)| (e.0@, e.1@, e.2))
                + Seq::<(Seq<char>, JsonView, Timestamp)>::empty() =~= inserts@.map_values(
                |e: (String, JsonValue, Timestamp)| (e.0@, e.1@, e.2),
            ));
        }
        let (m2, n2, p3) = match parse_item_head(bytes, cur) {
            Ok(h) => h,
            Err(()) => {
                return Err(MessageError::Deserialize);
            },
        };
        if m2 != 4 {
            return Err(MessageError::Deserialize);
        }
        let ghost rem_target = spec_dec_rem_seq_at(bytes@, p3 as int, n2);
        let mut removes: Vec<(String, Timestamp)> = Vec::new();
        let mut cur2 = p3;
        let mut rem_count2 = n2;
        while rem_count2 > 0
            invariant
                0 < cur2 <= bytes@.len(),
                (match spec_dec_rem_seq_at(bytes@, cur2 as int, rem_count2) {
                    Some((rest, pend)) => rem_target == Some::<
                        (Seq<(Seq<char>, Timestamp)>, int),
                    >((removes@.map_values(|e: (String, Timestamp)| (e.0@, e.1)) + rest, pend)),
                    None => rem_target is None,
                }),
            decreases rem_count2,
        {
            let ghost pre = removes@;
            let e = match parse_rem(bytes, cur2) {
                Ok(e) => e,
                Err(()) => {
                    return Err(MessageError::Deserialize);
                },
            };
            let next = e.2;
            removes.push((e.0, e.1));
            proof {
                let f = |e: (String, Timestamp)| (e.0@, e.1);
                assert(removes@.map_values(f) =~= pre.map_values(f).push(
                    (removes@.last().0@, removes@.last().1),
                ));
                assert(match spec_dec_rem_seq_at(bytes@, next as int, (rem_count2 - 1) as u64) {
                    Some((rest, pend)) => pre.map_values(f) + (seq![
                        (removes@.last().0@, removes@.last().1),
                    ] + rest) =~= removes@.map_values(f) + rest,
                    None => true,
                });
            }
            cur2 = next;
            rem_count2 = rem_count2 - 1;
        }
        proof {
            assert(removes@.map_values(|e: (String, Timestamp)| (e.0@, e.1)) + Seq::<
                (Seq<char>, Timestamp),
            >::empty() =~= removes@.map_values(|e: (String, Timestamp)| (e.0@, e.1)));
        }
        let d = Delta { inserts, removes };
        Ok(d)
    }
}

/// Parse one insert entry.
fn parse_ins(bytes: &[u8], pos: usize) -> (r: Result<(String, JsonValue, Timestamp, usize), ()>)
    ensures
        r matches Ok(e) ==> spec_dec_ins_at(bytes@, pos as int) == Some(
            ((e.0@, e.1@, e.2), e.3 as int),
        ) && pos < e.3 <= bytes@.len(),
        r is Err ==> spec_dec_ins_at(bytes@, pos as int) is None,
{
    let (m, n, p) = match parse_item_head(bytes, pos) {
        Ok(h) => h,
        Err(()) => {
            return Err(());
        },
    };
    if m != 4 || n != 3 {
        return Err(());
    }
    let (k, p1) = match parse_text_item(bytes, p) {
        Ok(x) => x,
        Err(()) => {
            return Err(());
        },
    };
    let (v, p2) = match parse_json_item(bytes, p1) {
        Ok(x) => x,
        Err(()) => {
            return Err(());
        },
    };
    let (t, p3) = match parse_ts(bytes, p2) {
        Ok(x) => x,
        Err(()) => {
            return Err(());
        },
    };
    Ok((k, v, t, p3))
}

/// Parse one removal entry.
fn parse_rem(bytes: &[u8], pos: usize) -> (r: Result<(String, Timestamp, usize), ()>)
    ensures
        r matches Ok(e) ==> spec_dec_rem_at(bytes@, pos as int) == Some(
            ((e.0@, e.1), e.2 as int),
        ) && pos < e.2 <= bytes@.len(),
        r is Err ==> spec_dec_rem_at(bytes@, pos as int) is None,
{
    let (m, n, p) = match parse_item_head(bytes, pos) {
        Ok(h) => h,
        Err(()) => {
            return Err(());
        },
    };
    if m != 4 || n != 2 {
        return Err(());
    }
    let (k, p1) = match parse_text_item(bytes, p) {
        Ok(x) => x,
        Err(()) => {
            return Err(());
        },
    };
    let (t, p2) = match parse_ts(bytes, p1) {
        Ok(x) => x,
        Err(()) => {
            return Err(());
        },
    };
    Ok((k, t, p2))
}

/// Appending one more insert appends its encoding.
pub proof fn lemma_enc_ins_seq_snoc(
    es: Seq<(Seq<char>, JsonView, Timestamp)>,
    x: (Seq<char>, JsonView, Timestamp),
)
    ensures
        spec_enc_ins_seq(es.push(x)) == spec_enc_ins_seq(es) + spec_enc_ins(x),
    decreases es.len(),
{
    reveal_with_fuel(spec_enc_ins_seq, 3);
    if es.len() == 0 {
        assert(es.push(x)[0] == x);
        assert(es.push(x).drop_first() =~= Seq::<(Seq<char>, JsonView, Timestamp)>::empty());
        assert(spec_enc_ins_seq(es.push(x)) =~= spec_enc_ins(x));
        assert(spec_enc_ins_seq(es) + spec_enc_ins(x) =~= spec_enc_ins(x));
    } else {
        assert(es.push(x)[0] == es[0]);
        assert(es.push(x).drop_first() =~= es.drop_first().push(x));
        lemma_enc_ins_seq_snoc(es.drop_first(), x);
        assert(spec_enc_ins_seq(es.push(x)) =~= spec_enc_ins_seq(es) + spec_enc_ins(x));
    }
}

/// Appending one more removal appends its encoding.
pub proof fn lemma_enc_rem_seq_snoc(es: Seq<(Seq<char>, Timestamp)>, x: (Seq<char>, Timestamp))
    ensures
        spec_enc_rem_seq(es.push(x)) == spec_enc_rem_seq(es) + spec_enc_rem(x),
    decreases es.len(),
{
    reveal_with_fuel(spec_enc_rem_seq, 3);
    if es.len() == 0 {
        assert(es.push(x)[0] == x);
        assert(es.push(x).drop_first() =~= Seq::<(Seq<char>, Timestamp)>::empty());
        assert(spec_enc_rem_seq(es.push(x)) =~= spec_enc_rem(x));
        assert(spec_enc_rem_seq(es) + spec_enc_rem(x) =~= spec_enc_rem(x));
    } else {
        assert(es.push(x)[0] == es[0]);
        assert(es.push(x).drop_first() =~= es.drop_first().push(x));
        lemma_enc_rem_seq_snoc(es.drop_first(), x);
        assert(spec_enc_rem_seq(es.push(x)) =~= spec_enc_rem_seq(es) + spec_enc_rem(x));
    }
}


/// The encoding of an optional byte string: null when absent.
pub open spec fn spec_enc_opt_bytes(o: Option<Seq<u8>>) -> Seq<u8> {
    match o {
        Some(b) => spec_enc_bytes(b),
        None => crate::codec::spec_enc_null(),
    }
}

/// The optional byte string at a position.
pub open spec fn spec_dec_opt_bytes_at(b: Seq<u8>, pos: int) -> Option<(Option<Seq<u8>>, int)> {
    if 0 <= pos < b.len() && b[pos] == 0xf6 {
        Some((None, pos + 1))
    } else {
        match spec_dec_bytes_at(b, pos) {
            Some((bs, p)) => Some((Some(bs), p)),
            None => None,
        }
    }
}

/// An optional byte string reads back as written.
pub proof fn lemma_opt_bytes_roundtrip(b: Seq<u8>, pos: int, o: Option<Seq<u8>>)
    requires
        (o matches Some(x) ==> x.len() <= u64::MAX),
        starts_with_at(b, pos, spec_enc_opt_bytes(o)),
    ensures
        spec_dec_opt_bytes_at(b, pos) == Some((o, pos + spec_enc_opt_bytes(o).len())),
        spec_enc_opt_bytes(o).len() >= 1,
        pos + spec_enc_opt_bytes(o).len() <= b.len(),
{
    crate::bytes_be::lemma_be_bytes_properties();
    match o {
        Some(x) => {
            lemma_bytes_roundtrip(b, pos, x);
            assert(spec_enc_bytes(x) =~= crate::codec::spec_head(2, x.len() as u64) + x);
            lemma_starts_with_concat(b, pos, crate::codec::spec_head(2, x.len() as u64), x);
            lemma_head_match(b, pos, 2, x.len() as u64);
            assert(b[pos] == 2 * 32 + 27);
        },
        None => {
            assert(b.subrange(pos, pos + 1)[0] == b[pos]);
            assert(b[pos] == 0xf6);
        },
    }
}

/// Append an optional byte string.
pub fn enc_opt_bytes(out: &mut Vec<u8>, o: &Option<Vec<u8>>)
    ensures
        final(out)@ == old(out)@ + spec_enc_opt_bytes(match o {
            Some(v) => Some(v@),
            None => None,
        }),
{
    match o {
        Some(v) => {
            let n = v.len();
            proof {
                assert(v@.len() == n);
            }
            enc_bytes(out, v.as_slice());
        },
        None => {
            out.push(0xf6);
            proof {
                assert(out@ =~= old(out)@ + crate::codec::spec_enc_null());
            }
        },
    }
}

/// Parse an optional byte string.
pub fn parse_opt_bytes(bytes: &[u8], pos: usize) -> (r: Result<(Option<Vec<u8>>, usize), ()>)
    ensures
        r matches Ok((o, p)) ==> spec_dec_opt_bytes_at(bytes@, pos as int) == Some((
            match o {
                Some(v) => Some(v@),
                None => None,
            },
            p as int,
        )) && pos < p <= bytes@.len(),
        r is Err ==> spec_dec_opt_bytes_at(bytes@, pos as int) is None,
{
    let n = bytes.len();
    if pos < n && bytes[pos] == 0xf6 {
        return Ok((None, pos + 1));
    }
    match parse_bytes_item(bytes, pos) {
        Ok((v, p)) => Ok((Some(v), p)),
        Err(()) => Err(()),
    }
}

/// A map key as it stands on the wire.
pub open spec fn spec_enc_key(k: Seq<char>) -> Seq<u8> {
    spec_enc_text(k)
}

/// Parse a map key and check it is the expected one.
fn expect_key(bytes: &[u8], pos: usize, lit: &str) -> (r: Result<usize, ()>)
    ensures
        r matches Ok(p) ==> spec_dec_text_at(bytes@, pos as int) == Some((lit@, p as int)) && pos
            < p <= bytes@.len(),
        r is Err ==> !(spec_dec_text_at(bytes@, pos as int) matches Some(q) && q.0 == lit@),
{
    match parse_text_item(bytes, pos) {
        Ok((k, p)) => {
            if str_eq(k.as_str(), lit) {
                Ok(p)
            } else {
                Err(())
            }
        },
        Err(()) => Err(()),
    }
}

/// The mathematical form of an agent hello.
#[verifier::ext_equal]
pub struct AgentHelloView {
    pub agent_id: u128,
    pub capabilities: Seq<Seq<char>>,
    pub clock_summary: Seq<u8>,
    pub version: Seq<char>,
}

/// Agent discovery and capability advertisement.
#[derive(Debug, PartialEq, Eq)]
pub struct AgentHello {
    /// Unique agent identifier
    pub agent_id: u128,
    /// Supported capabilities
    pub capabilities: Vec<String>,
    /// Clock summary for anti-entropy
    pub clock_summary: Vec<u8>,
    /// Agent version
    pub version: String,
}

impl View for AgentHello {
    type V = AgentHelloView;

    open spec fn view(&self) -> AgentHelloView {
        AgentHelloView {
            agent_id: self.agent_id,
            capabilities: self.capabilities@.map_values(|s: String| s@),
            clock_summary: self.clock_summary@,
            version: self.version@,
        }
    }
}

/// The wire form of an agent hello.
pub open spec fn spec_enc_hello(h: AgentHelloView) -> Seq<u8> {
    crate::codec::spec_enc_map(4) + spec_enc_key("agent_id"@) + spec_enc_bytes(
        spec_u128_to_be_bytes(h.agent_id),
    ) + spec_enc_key("capabilities"@) + spec_enc_array(h.capabilities.len() as u64)
        + spec_enc_text_seq(h.capabilities) + spec_enc_key("clock_summary"@) + spec_enc_bytes(
        h.clock_summary,
    ) + spec_enc_key("version"@) + spec_enc_text(h.version)
}

pub open spec fn spec_enc_text_seq(es: Seq<Seq<char>>) -> Seq<u8>
    decreases es.len(),
{
    if es.len() == 0 {
        Seq::empty()
    } else {
        spec_enc_text(es[0]) + spec_enc_text_seq(es.drop_first())
    }
}

pub proof fn lemma_enc_text_seq_snoc(es: Seq<Seq<char>>, x: Seq<char>)
    ensures
        spec_enc_text_seq(es.push(x)) == spec_enc_text_seq(es) + spec_enc_text(x),
    decreases es.len(),
{
    reveal_with_fuel(spec_enc_text_seq, 3);
    if es.len() == 0 {
        assert(es.push(x)[0] == x);
        assert(es.push(x).drop_first() =~= Seq::<Seq<char>>::empty());
        assert(spec_enc_text_seq(es.push(x)) =~= spec_enc_text(x));
        assert(spec_enc_text_seq(es) + spec_enc_text(x) =~= spec_enc_text(x));
    } else {
        assert(es.push(x)[0] == es[0]);
        assert(es.push(x).drop_first() =~= es.drop_first().push(x));
        lemma_enc_text_seq_snoc(es.drop_first(), x);
        assert(spec_enc_text_seq(es.push(x)) =~= spec_enc_text_seq(es) + spec_enc_text(x));
    }
}

pub open spec fn spec_dec_text_seq_at(b: Seq<u8>, pos: int, n: u64) -> Option<
    (Seq<Seq<char>>, int),
>
    decreases n,
{
    if n == 0 {
        Some((Seq::empty(), pos))
    } else {
        match spec_dec_text_at(b, pos) {
            Some((s, p)) => if pos < p && p <= b.len() {
                match spec_dec_text_seq_at(b, p, (n - 1) as u64) {
                    Some((rest, p2)) => Some((seq![s] + rest, p2)),
                    None => None,
                }
            } else {
                None
            },
            None => None,
        }
    }
}

pub proof fn lemma_text_seq_roundtrip(b: Seq<u8>, pos: int, es: Seq<Seq<char>>)
    requires
        es.len() <= u64::MAX,
        forall|i: int| 0 <= i < es.len() ==> encode_utf8(#[trigger] es[i]).len() <= u64::MAX,
        starts_with_at(b, pos, spec_enc_text_seq(es)),
    ensures
        spec_dec_text_seq_at(b, pos, es.len() as u64) == Some(
            (es, pos + spec_enc_text_seq(es).len()),
        ),
    decreases es.len(),
{
    reveal_with_fuel(spec_enc_text_seq, 2);
    if es.len() == 0 {
        assert(spec_enc_text_seq(es).len() == 0);
    } else {
        let head = spec_enc_text(es[0]);
        let rest = es.drop_first();
        assert(spec_enc_text_seq(es) =~= head + spec_enc_text_seq(rest));
        lemma_starts_with_concat(b, pos, head, spec_enc_text_seq(rest));
        lemma_text_roundtrip(b, pos, es[0]);
        crate::bytes_be::lemma_be_bytes_properties();
        let p = pos + head.len() as int;
        assert forall|i: int|
            0 <= i < rest.len() implies encode_utf8(#[trigger] rest[i]).len() <= u64::MAX by {
            assert(rest[i] == es[i + 1]);
        }
        lemma_text_seq_roundtrip(b, p, rest);
        assert(seq![es[0]] + rest =~= es);
    }
}

/// The hello at a position.
#[verifier::opaque]
pub open spec fn spec_dec_hello_at(b: Seq<u8>, pos: int) -> Option<(AgentHelloView, int)> {
    match spec_item_head_at(b, pos) {
        Some((m0, four, q0)) => if m0 == 5 && four == 4 {
            match spec_dec_text_at(b, q0) {
                Some((k1, q1)) => if k1 == "agent_id"@ {
                    match spec_dec_bytes_at(b, q1) {
                        Some((idb, q2)) => if idb.len() == 16 {
                            match spec_dec_text_at(b, q2) {
                                Some((k2, q3)) => if k2 == "capabilities"@ && 0 <= q3 {
                                    match spec_item_head_at(b, q3) {
                                        Some((m1, n1, q4)) => if m1 == 4 {
                                            match spec_dec_text_seq_at(b, q4, n1) {
                                                Some((caps, q5)) => match spec_dec_text_at(
                                                    b,
                                                    q5,
                                                ) {
                                                    Some((k3, q6)) => if k3
                                                        == "clock_summary"@ {
                                                        match spec_dec_bytes_at(b, q6) {
                                                            Some((cs, q7)) => match
                                                                spec_dec_text_at(b, q7) {
                                                                Some((k4, q8)) => if k4
                                                                    == "version"@ {
                                                                    match spec_dec_text_at(
                                                                        b,
                                                                        q8,
                                                                    ) {
                                                                        Some((ver, q9)) => Some(
                                                                            (
                                                                            AgentHelloView {
                                                                                agent_id:
                                                                                    spec_u128_from_be_bytes(
                                                                                    idb,
                                                                                ),
                                                                                capabilities:
                                                                                    caps,
                                                                                clock_summary:
                                                                                    cs,
                                                                                version: ver,
                                                                            },
                                                                            q9,
                                                                        ),
                                                                        ),
                                                                        None => None,
                                                                    }
                                                                } else {
                                                                    None
                                                                },
                                                                None => None,
                                                            },
                                                            None => None,
                                                        }
                                                    } else {
                                                        None
                                                    },
                                                    None => None,
                                                },
                                                None => None,
                                            }
                                        } else {
                                            None
                                        },
                                        None => None,
                                    }
                                } else {
                                    None
                                },
                                None => None,
                            }
                        } else {
                            None
                        },
                        None => None,
                    }
                } else {
                    None
                },
                None => None,
            }
        } else {
            None
        },
        None => None,
    }
}

/// Whether a hello fits the wire's length fields.
pub open spec fn hello_bounded(h: AgentHelloView) -> bool {
    &&& h.capabilities.len() <= u64::MAX
    &&& forall|i: int|
        0 <= i < h.capabilities.len() ==> encode_utf8(#[trigger] h.capabilities[i]).len()
            <= u64::MAX
    &&& h.clock_summary.len() <= u64::MAX
    &&& encode_utf8(h.version).len() <= u64::MAX
}

/// The wire round trip for hellos.
#[verifier::rlimit(80)]
#[verifier::spinoff_prover]
pub proof fn lemma_hello_roundtrip(b: Seq<u8>, pos: int, h: AgentHelloView)
    requires
        hello_bounded(h),
        starts_with_at(b, pos, spec_enc_hello(h)),
    ensures
        spec_dec_hello_at(b, pos) == Some((h, pos + spec_enc_hello(h).len())),
{
    reveal(spec_dec_hello_at);
    crate::bytes_be::lemma_be_bytes_properties();
    crate::bytes_be::lemma_u32_u128_be_from_to();
    proof_distinct_keys();
    let k1 = spec_enc_key("agent_id"@);
    let idb = spec_enc_bytes(spec_u128_to_be_bytes(h.agent_id));
    let k2 = spec_enc_key("capabilities"@);
    let ah = spec_enc_array(h.capabilities.len() as u64);
    let capsb = spec_enc_text_seq(h.capabilities);
    let k3 = spec_enc_key("clock_summary"@);
    let csb = spec_enc_bytes(h.clock_summary);
    let k4 = spec_enc_key("version"@);
    let verb = spec_enc_text(h.version);
    assert(spec_enc_hello(h) =~= crate::codec::spec_enc_map(4) + (k1 + (idb + (k2 + (ah + (capsb
        + (k3 + (csb + (k4 + verb)))))))));
    lemma_starts_with_concat(
        b,
        pos,
        crate::codec::spec_enc_map(4),
        k1 + (idb + (k2 + (ah + (capsb + (k3 + (csb + (k4 + verb))))))),
    );
    lemma_head_match(b, pos, 5, 4);
    let q0 = pos + 9;
    lemma_starts_with_concat(b, q0, k1, idb + (k2 + (ah + (capsb + (k3 + (csb + (k4 + verb)))))));
    lemma_text_roundtrip(b, q0, "agent_id"@);
    let q1 = q0 + k1.len() as int;
    lemma_starts_with_concat(b, q1, idb, k2 + (ah + (capsb + (k3 + (csb + (k4 + verb))))));
    lemma_bytes_roundtrip(b, q1, spec_u128_to_be_bytes(h.agent_id));
    let q2 = q1 + idb.len() as int;
    lemma_starts_with_concat(b, q2, k2, ah + (capsb + (k3 + (csb + (k4 + verb)))));
    lemma_text_roundtrip(b, q2, "capabilities"@);
    let q3 = q2 + k2.len() as int;
    lemma_starts_with_concat(b, q3, ah, capsb + (k3 + (csb + (k4 + verb))));
    lemma_head_match(b, q3, 4, h.capabilities.len() as u64);
    let q4 = q3 + 9;
    lemma_starts_with_concat(b, q4, capsb, k3 + (csb + (k4 + verb)));
    lemma_text_seq_roundtrip(b, q4, h.capabilities);
    let q5 = q4 + capsb.len() as int;
    lemma_starts_with_concat(b, q5, k3, csb + (k4 + verb));
    lemma_text_roundtrip(b, q5, "clock_summary"@);
    let q6 = q5 + k3.len() as int;
    lemma_starts_with_concat(b, q6, csb, k4 + verb);
    lemma_bytes_roundtrip(b, q6, h.clock_summary);
    let q7 = q6 + csb.len() as int;
    lemma_starts_with_concat(b, q7, k4, verb);
    lemma_text_roundtrip(b, q7, "version"@);
    let q8 = q7 + k4.len() as int;
    lemma_text_roundtrip(b, q8, h.version);
}

/// The wire keys are pairwise distinct and short.
proof fn proof_distinct_keys()
    ensures
        "agent_id"@ != "capabilities"@,
        "agent_id"@ != "clock_summary"@,
        "agent_id"@ != "version"@,
        "capabilities"@ != "clock_summary"@,
        "capabilities"@ != "version"@,
        "clock_summary"@ != "version"@,
        encode_utf8("agent_id"@).len() <= u64::MAX,
        encode_utf8("capabilities"@).len() <= u64::MAX,
        encode_utf8("clock_summary"@).len() <= u64::MAX,
        encode_utf8("version"@).len() <= u64::MAX,
        encode_utf8("doc_id"@).len() <= u64::MAX,
        encode_utf8("delta_id"@).len() <= u64::MAX,
        encode_utf8("delta_payload"@).len() <= u64::MAX,
        encode_utf8("signature"@).len() <= u64::MAX,
        encode_utf8("have_summary"@).len() <= u64::MAX,
        encode_utf8("want_range"@).len() <= u64::MAX,
        encode_utf8("deltas"@).len() <= u64::MAX,
        encode_utf8("snapshot"@).len() <= u64::MAX,
        "doc_id"@ != "delta_id"@,
        "doc_id"@ != "delta_payload"@,
        "doc_id"@ != "signature"@,
        "delta_id"@ != "delta_payload"@,
        "delta_id"@ != "signature"@,
        "delta_payload"@ != "signature"@,
        "doc_id"@ != "have_summary"@,
        "doc_id"@ != "want_range"@,
        "have_summary"@ != "want_range"@,
        "doc_id"@ != "deltas"@,
        "doc_id"@ != "snapshot"@,
        "deltas"@ != "snapshot"@,
{
    reveal_strlit("agent_id");
    reveal_strlit("capabilities");
    reveal_strlit("clock_summary");
    reveal_strlit("version");
    reveal_strlit("doc_id");
    reveal_strlit("delta_id");
    reveal_strlit("delta_payload");
    reveal_strlit("signature");
    reveal_strlit("have_summary");
    reveal_strlit("want_range");
    reveal_strlit("deltas");
    reveal_strlit("snapshot");
    key_ascii("agent_id"@);
    key_ascii("capabilities"@);
    key_ascii("clock_summary"@);
    key_ascii("version"@);
    key_ascii("doc_id"@);
    key_ascii("delta_id"@);
    key_ascii("delta_payload"@);
    key_ascii("signature"@);
    key_ascii("have_summary"@);
    key_ascii("want_range"@);
    key_ascii("deltas"@);
    key_ascii("snapshot"@);
    assert("doc_id"@ != "deltas"@) by {
        assert("doc_id"@[1] != "deltas"@[1]);
    }
}

/// ASCII keys encode byte-per-character.
proof fn key_ascii(s: Seq<char>)
    requires
        vstd::utf8::is_ascii_chars(s),
    ensures
        encode_utf8(s).len() == s.len(),
{
    vstd::utf8::is_ascii_chars_encode_utf8(s);
}

impl AgentHello {
    /// A hello for this agent with the given capabilities.
    pub fn new(agent_id: u128, capabilities: Vec<String>) -> (r: AgentHello)
        ensures
            r@.agent_id == agent_id,
            r@.capabilities == capabilities@.map_values(|s: String| s@),
            r@.clock_summary == Seq::<u8>::empty(),
    {
        let r = AgentHello {
            agent_id,
            capabilities,
            clock_summary: Vec::new(),
            version: crate::strutil::version_string(),
        };
        proof {
            assert(r@.clock_summary =~= Seq::<u8>::empty());
        }
        r
    }

    /// Serialize to the wire form; serialization always succeeds.
    pub fn to_cbor(&self) -> (r: Result<Vec<u8>, MessageError>)
        ensures
            r is Ok,
            r matches Ok(out) ==> out@ == spec_enc_hello(self@) && hello_bounded(self@),
    {
        proof {
            reveal_strlit("agent_id");
            reveal_strlit("capabilities");
            reveal_strlit("clock_summary");
            reveal_strlit("version");
        }
        let mut out: Vec<u8> = Vec::new();
        enc_head(&mut out, 5, 4);
        enc_text(&mut out, "agent_id");
        let idb = u128_to_be_bytes(self.agent_id);
        enc_bytes(&mut out, idb.as_slice());
        enc_text(&mut out, "capabilities");
        enc_head(&mut out, 4, self.capabilities.len() as u64);
        let ghost base = out@;
        let nc = self.capabilities.len();
        let mut i: usize = 0;
        proof {
            assert(self@.capabilities.take(0) =~= Seq::<Seq<char>>::empty());
            assert(base + spec_enc_text_seq(self@.capabilities.take(0)) =~= base);
        }
        while i < nc
            invariant
                nc == self.capabilities@.len(),
                i <= nc,
                out@ == base + spec_enc_text_seq(self@.capabilities.take(i as int)),
                forall|k: int|
                    0 <= k < i ==> encode_utf8(#[trigger] self@.capabilities[k]).len()
                        <= u64::MAX,
            decreases nc - i,
        {
            enc_text(&mut out, self.capabilities[i].as_str());
            let mid = out.len();
            i += 1;
            proof {
                assert(encode_utf8(self@.capabilities[i - 1]).len() <= mid);
                lemma_enc_text_seq_snoc(self@.capabilities.take(i - 1), self@.capabilities[i - 1]);
                assert(self@.capabilities.take(i as int) =~= self@.capabilities.take(i - 1).push(
                    self@.capabilities[i - 1],
                ));
                assert(out@ =~= base + spec_enc_text_seq(self@.capabilities.take(i as int)));
            }
        }
        proof {
            assert(self@.capabilities.take(nc as int) =~= self@.capabilities);
        }
        enc_text(&mut out, "clock_summary");
        let ncs = self.clock_summary.len();
        proof {
            assert(self.clock_summary@.len() == ncs);
        }
        enc_bytes(&mut out, self.clock_summary.as_slice());
        enc_text(&mut out, "version");
        enc_text(&mut out, self.version.as_str());
        let total = out.len();
        proof {
            assert(encode_utf8(self@.version).len() <= total);
            assert(out@ =~= spec_enc_hello(self@));
        }
        Ok(out)
    }

    /// Deserialize from the wire form.
    pub fn from_cbor(bytes: &[u8]) -> (r: Result<AgentHello, MessageError>)
        ensures
            r matches Ok(h) ==> (spec_dec_hello_at(bytes@, 0) matches Some(q) && q.0 == h@),
            r is Err ==> spec_dec_hello_at(bytes@, 0) is None,
    {
        proof {
            reveal(spec_dec_hello_at);
        }
        proof {
            reveal_strlit("agent_id");
            reveal_strlit("capabilities");
            reveal_strlit("clock_summary");
            reveal_strlit("version");
            proof_distinct_keys();
        }
        let (m0, four, q0) = match parse_item_head(bytes, 0) {
            Ok(h) => h,
            Err(()) => {
                return Err(MessageError::Deserialize);
            },
        };
        if m0 != 5 || four != 4 {
            return Err(MessageError::Deserialize);
        }
        let q1 = match expect_key(bytes, q0, "agent_id") {
            Ok(p) => p,
            Err(()) => {
                return Err(MessageError::Deserialize);
            },
        };
        let (idb, q2) = match parse_bytes_item(bytes, q1) {
            Ok(x) => x,
            Err(()) => {
                return Err(MessageError::Deserialize);
            },
        };
        if idb.len() != 16 {
            return Err(MessageError::Deserialize);
        }
        let agent_id = u128_from_be_bytes(idb.as_slice());
        proof {
            crate::bytes_be::lemma_u32_u128_be_from_to();
        }
        let q3 = match expect_key(bytes, q2, "capabilities") {
            Ok(p) => p,
            Err(()) => {
                return Err(MessageError::Deserialize);
            },
        };
        let (m1, n1, q4) = match parse_item_head(bytes, q3) {
            Ok(h) => h,
            Err(()) => {
                return Err(MessageError::Deserialize);
            },
        };
        if m1 != 4 {
            return Err(MessageError::Deserialize);
        }
        let ghost caps_target = spec_dec_text_seq_at(bytes@, q4 as int, n1);
        let mut capabilities: Vec<String> = Vec::new();
        let mut cur = q4;
        let mut remn = n1;
        while remn > 0
            invariant
                0 < cur <= bytes@.len(),
                (match spec_dec_text_seq_at(bytes@, cur as int, remn) {
                    Some((rest, pend)) => caps_target == Some::<(Seq<Seq<char>>, int)>(
                        (capabilities@.map_values(|s: String| s@) + rest, pend),
                    ),
                    None => caps_target is None,
                }),
            decreases remn,
        {
            let ghost pre = capabilities@;
            let (s, p) = match parse_text_item(bytes, cur) {
                Ok(x) => x,
                Err(()) => {
                    return Err(MessageError::Deserialize);
                },
            };
            capabilities.push(s);
            proof {
                let f = |s: String| s@;
                assert(capabilities@.map_values(f) =~= pre.map_values(f).push(
                    capabilities@.last()@,
                ));
                assert(match spec_dec_text_seq_at(bytes@, p as int, (remn - 1) as u64) {
                    Some((rest, pend)) => pre.map_values(f) + (seq![capabilities@.last()@]
                        + rest) =~= capabilities@.map_values(f) + rest,
                    None => true,
                });
            }
            cur = p;
            remn = remn - 1;
        }
        proof {
            assert(capabilities@.map_values(|s: String| s@) + Seq::<Seq<char>>::empty()
                =~= capabilities@.map_values(|s: String| s@));
        }
        let q6 = match expect_key(bytes, cur, "clock_summary") {
            Ok(p) => p,
            Err(()) => {
                return Err(MessageError::Deserialize);
            },
        };
        let (clock_summary, q7) = match parse_bytes_item(bytes, q6) {
            Ok(x) => x,
            Err(()) => {
                return Err(MessageError::Deserialize);
            },
        };
        let q8 = match expect_key(bytes, q7, "version") {
            Ok(p) => p,
            Err(()) => {
                return Err(MessageError::Deserialize);
            },
        };
        let (version, _q9) = match parse_text_item(bytes, q8) {
            Ok(x) => x,
            Err(()) => {
                return Err(MessageError::Deserialize);
            },
        };
        Ok(AgentHello { agent_id, capabilities, clock_summary, version })
    }
}


/// The mathematical form of a document delta message.
#[verifier::ext_equal]
pub struct DocDeltaView {
    pub doc_id: Seq<char>,
    pub delta_id: Seq<u8>,
    pub delta_payload: Seq<u8>,
    pub signature: Option<Seq<u8>>,
}

/// A document delta for incremental replication: the document id, the
/// 28-byte timestamp that identifies the delta, the encoded delta payload,
/// and an optional signature.
#[derive(Debug, PartialEq, Eq)]
pub struct DocDelta {
    /// Document identifier, in its canonical string form
    pub doc_id: String,
    /// Delta identifier: the stamping timestamp's wire form
    pub delta_id: Vec<u8>,
    /// The encoded delta payload
    pub delta_payload: Vec<u8>,
    /// Optional signature over the message
    pub signature: Option<Vec<u8>>,
}

impl View for DocDelta {
    type V = DocDeltaView;

    open spec fn view(&self) -> DocDeltaView {
        DocDeltaView {
            doc_id: self.doc_id@,
            delta_id: self.delta_id@,
            delta_payload: self.delta_payload@,
            signature: match self.signature {
                Some(s) => Some(s@),
                None => None,
            },
        }
    }
}

impl Clone for DocDelta {
    fn clone(&self) -> (r: Self)
        ensures
            r@ == self@,
    {
        DocDelta {
            doc_id: self.doc_id.clone(),
            delta_id: self.delta_id.clone(),
            delta_payload: self.delta_payload.clone(),
            signature: match &self.signature {
                Some(s) => Some(s.clone()),
                None => None,
            },
        }
    }
}

/// The wire form of a document delta message.
pub open spec fn spec_enc_doc_delta(d: DocDeltaView) -> Seq<u8> {
    crate::codec::spec_enc_map(4) + spec_enc_key("doc_id"@) + spec_enc_text(d.doc_id)
        + spec_enc_key("delta_id"@) + spec_enc_bytes(d.delta_id) + spec_enc_key(
        "delta_payload"@,
    ) + spec_enc_bytes(d.delta_payload) + spec_enc_key("signature"@) + spec_enc_opt_bytes(
        d.signature,
    )
}

/// Whether a document delta fits the wire's length fields.
pub open spec fn doc_delta_bounded(d: DocDeltaView) -> bool {
    &&& encode_utf8(d.doc_id).len() <= u64::MAX
    &&& d.delta_id.len() <= u64::MAX
    &&& d.delta_payload.len() <= u64::MAX
    &&& (d.signature matches Some(s) ==> s.len() <= u64::MAX)
}

/// The document delta message at a position. Opaque so that proofs about
/// runs of envelopes unfold it only where they mean to.
#[verifier::opaque]
pub open spec fn spec_dec_doc_delta_at(b: Seq<u8>, pos: int) -> Option<(DocDeltaView, int)> {
    match spec_item_head_at(b, pos) {
        Some((m0, cnt, q0)) => if m0 == 5 && (cnt == 4 || cnt == 3) {
            match spec_dec_text_at(b, q0) {
                Some((k1, q1)) => if k1 == "doc_id"@ {
                    match spec_dec_text_at(b, q1) {
                        Some((doc_id, q2)) => match spec_dec_text_at(b, q2) {
                            Some((k2, q3)) => if k2 == "delta_id"@ {
                                match spec_dec_bytes_at(b, q3) {
                                    Some((did, q4)) => match spec_dec_text_at(b, q4) {
                                        Some((k3, q5)) => if k3 == "delta_payload"@ {
                                            match spec_dec_bytes_at(b, q5) {
                                                Some((pl, q6)) => if cnt == 3 {
                                                    Some(
                                                        (
                                                        DocDeltaView {
                                                            doc_id,
                                                            delta_id: did,
                                                            delta_payload: pl,
                                                            signature: None,
                                                        },
                                                        q6,
                                                    ),
                                                    )
                                                } else {
                                                    match spec_dec_text_at(b, q6) {
                                                        Some((k4, q7)) => if k4
                                                            == "signature"@ {
                                                            match spec_dec_opt_bytes_at(
                                                                b,
                                                                q7,
                                                            ) {
                                                                Some((sig, q8)) => Some(
                                                                    (
                                                                    DocDeltaView {
                                                                        doc_id,
                                                                        delta_id: did,
                                                                        delta_payload: pl,
                                                                        signature: sig,
                                                                    },
                                                                    q8,
                                                                ),
                                                                ),
                                                                None => None,
                                                            }
                                                        } else {
                                                            None
                                                        },
                                                        None => None,
                                                    }
                                                },
                                                None => None,
                                            }
                                        } else {
                                            None
                                        },
                                        None => None,
                                    },
                                    None => None,
                                }
                            } else {
                                None
                            },
                            None => None,
                        },
                        None => None,
                    }
                } else {
                    None
                },
                None => None,
            }
        } else {
            None
        },
        None => None,
    }
}

/// The wire round trip for document delta messages.
#[verifier::rlimit(80)]
#[verifier::spinoff_prover]
pub proof fn lemma_doc_delta_roundtrip(b: Seq<u8>, pos: int, d: DocDeltaView)
    requires
        doc_delta_bounded(d),
        starts_with_at(b, pos, spec_enc_doc_delta(d)),
    ensures
        spec_dec_doc_delta_at(b, pos) == Some((d, pos + spec_enc_doc_delta(d).len())),
        spec_enc_doc_delta(d).len() >= 1,
{
    reveal(spec_dec_doc_delta_at);
    crate::bytes_be::lemma_be_bytes_properties();
    proof_distinct_keys();
    let k1 = spec_enc_key("doc_id"@);
    let docb = spec_enc_text(d.doc_id);
    let k2 = spec_enc_key("delta_id"@);
    let didb = spec_enc_bytes(d.delta_id);
    let k3 = spec_enc_key("delta_payload"@);
    let plb = spec_enc_bytes(d.delta_payload);
    let k4 = spec_enc_key("signature"@);
    let sigb = spec_enc_opt_bytes(d.signature);
    assert(spec_enc_doc_delta(d) =~= crate::codec::spec_enc_map(4) + (k1 + (docb + (k2 + (didb
        + (k3 + (plb + (k4 + sigb))))))));
    lemma_starts_with_concat(
        b,
        pos,
        crate::codec::spec_enc_map(4),
        k1 + (docb + (k2 + (didb + (k3 + (plb + (k4 + sigb)))))),
    );
    lemma_head_match(b, pos, 5, 4);
    let q0 = pos + 9;
    lemma_starts_with_concat(b, q0, k1, docb + (k2 + (didb + (k3 + (plb + (k4 + sigb))))));
    lemma_text_roundtrip(b, q0, "doc_id"@);
    let q1 = q0 + k1.len() as int;
    lemma_starts_with_concat(b, q1, docb, k2 + (didb + (k3 + (plb + (k4 + sigb)))));
    lemma_text_roundtrip(b, q1, d.doc_id);
    let q2 = q1 + docb.len() as int;
    lemma_starts_with_concat(b, q2, k2, didb + (k3 + (plb + (k4 + sigb))));
    lemma_text_roundtrip(b, q2, "delta_id"@);
    let q3 = q2 + k2.len() as int;
    lemma_starts_with_concat(b, q3, didb, k3 + (plb + (k4 + sigb)));
    lemma_bytes_roundtrip(b, q3, d.delta_id);
    let q4 = q3 + didb.len() as int;
    lemma_starts_with_concat(b, q4, k3, plb + (k4 + sigb));
    lemma_text_roundtrip(b, q4, "delta_payload"@);
    let q5 = q4 + k3.len() as int;
    lemma_starts_with_concat(b, q5, plb, k4 + sigb);
    lemma_bytes_roundtrip(b, q5, d.delta_payload);
    let q6 = q5 + plb.len() as int;
    lemma_starts_with_concat(b, q6, k4, sigb);
    lemma_text_roundtrip(b, q6, "signature"@);
    let q7 = q6 + k4.len() as int;
    lemma_opt_bytes_roundtrip(b, q7, d.signature);
}

impl DocDelta {
    /// A delta message carrying the given payload, identified by its
    /// stamping timestamp.
    pub fn new(doc_id: String, timestamp: Timestamp, payload: Vec<u8>) -> (r: DocDelta)
        ensures
            r@.doc_id == doc_id@,
            r@.delta_id == timestamp.spec_bytes(),
            r@.delta_payload == payload@,
            r@.signature is None,
    {
        DocDelta {
            doc_id,
            delta_id: timestamp.to_bytes(),
            delta_payload: payload,
            signature: None,
        }
    }

    /// The timestamp the delta id encodes, when it is well-formed.
    pub fn timestamp(&self) -> (r: Result<Timestamp, MessageError>)
        ensures
            self@.delta_id.len() >= 28 ==> (r matches Ok(t) && t.spec_bytes()
                == self@.delta_id.subrange(0, 28)),
            self@.delta_id.len() < 28 ==> r is Err,
    {
        match Timestamp::from_bytes(self.delta_id.as_slice()) {
            Ok(t) => Ok(t),
            Err(_) => Err(MessageError::Deserialize),
        }
    }

    /// Serialize to the wire form; serialization always succeeds.
    pub fn to_cbor(&self) -> (r: Result<Vec<u8>, MessageError>)
        ensures
            r is Ok,
            r matches Ok(out) ==> out@ == spec_enc_doc_delta(self@) && doc_delta_bounded(self@),
    {
        proof {
            reveal_strlit("doc_id");
            reveal_strlit("delta_id");
            reveal_strlit("delta_payload");
            reveal_strlit("signature");
        }
        let mut out: Vec<u8> = Vec::new();
        enc_head(&mut out, 5, 4);
        enc_text(&mut out, "doc_id");
        enc_text(&mut out, self.doc_id.as_str());
        let t1 = out.len();
        proof {
            assert(encode_utf8(self@.doc_id).len() <= t1);
        }
        enc_text(&mut out, "delta_id");
        let n1 = self.delta_id.len();
        proof {
            assert(self.delta_id@.len() == n1);
        }
        enc_bytes(&mut out, self.delta_id.as_slice());
        enc_text(&mut out, "delta_payload");
        let n2 = self.delta_payload.len();
        proof {
            assert(self.delta_payload@.len() == n2);
        }
        enc_bytes(&mut out, self.delta_payload.as_slice());
        enc_text(&mut out, "signature");
        match &self.signature {
            Some(s) => {
                let n3 = s.len();
                proof {
                    assert(s@.len() == n3);
                }
                enc_bytes(&mut out, s.as_slice());
            },
            None => {
                out.push(0xf6);
            },
        }
        proof {
            assert(out@ =~= spec_enc_doc_delta(self@));
        }
        Ok(out)
    }

    /// Deserialize from the wire form.
    pub fn from_cbor(bytes: &[u8]) -> (r: Result<DocDelta, MessageError>)
        ensures
            r matches Ok(d) ==> (spec_dec_doc_delta_at(bytes@, 0) matches Some(q) && q.0 == d@),
            r is Err ==> spec_dec_doc_delta_at(bytes@, 0) is None,
    {
        match parse_doc_delta(bytes, 0) {
            Ok((d, _p)) => Ok(d),
            Err(()) => Err(MessageError::Deserialize),
        }
    }
}

/// Parse one document delta message at a position.
pub fn parse_doc_delta(bytes: &[u8], pos: usize) -> (r: Result<(DocDelta, usize), ()>)
    ensures
        r matches Ok((d, p)) ==> spec_dec_doc_delta_at(bytes@, pos as int) == Some(
            (d@, p as int),
        ) && pos < p <= bytes@.len(),
        r is Err ==> spec_dec_doc_delta_at(bytes@, pos as int) is None,
{
    proof {
        reveal(spec_dec_doc_delta_at);
        reveal_strlit("doc_id");
        reveal_strlit("delta_id");
        reveal_strlit("delta_payload");
        reveal_strlit("signature");
        proof_distinct_keys();
    }
    let (m0, cnt, q0) = match parse_item_head(bytes, pos) {
        Ok(h) => h,
        Err(()) => {
            return Err(());
        },
    };
    if m0 != 5 || (cnt != 4 && cnt != 3) {
        return Err(());
    }
    let q1 = match expect_key(bytes, q0, "doc_id") {
        Ok(p) => p,
        Err(()) => {
            return Err(());
        },
    };
    let (doc_id, q2) = match parse_text_item(bytes, q1) {
        Ok(x) => x,
        Err(()) => {
            return Err(());
        },
    };
    let q3 = match expect_key(bytes, q2, "delta_id") {
        Ok(p) => p,
        Err(()) => {
            return Err(());
        },
    };
    let (delta_id, q4) = match parse_bytes_item(bytes, q3) {
        Ok(x) => x,
        Err(()) => {
            return Err(());
        },
    };
    let q5 = match expect_key(bytes, q4, "delta_payload") {
        Ok(p) => p,
        Err(()) => {
            return Err(());
        },
    };
    let (delta_payload, q6) = match parse_bytes_item(bytes, q5) {
        Ok(x) => x,
        Err(()) => {
            return Err(());
        },
    };
    if cnt == 3 {
        // a sender that omitted the optional signature entry
        return Ok((DocDelta { doc_id, delta_id, delta_payload, signature: None }, q6));
    }
    let q7 = match expect_key(bytes, q6, "signature") {
        Ok(p) => p,
        Err(()) => {
            return Err(());
        },
    };
    let (signature, q8) = match parse_opt_bytes(bytes, q7) {
        Ok(x) => x,
        Err(()) => {
            return Err(());
        },
    };
    Ok((DocDelta { doc_id, delta_id, delta_payload, signature }, q8))
}


/// The mathematical form of a delta range.
#[verifier::ext_equal]
pub struct DeltaRangeView {
    pub from: Seq<u8>,
    pub to: Option<Seq<u8>>,
}

/// A range of deltas identified by timestamp wire forms.
#[derive(Debug, PartialEq, Eq)]
pub struct DeltaRange {
    /// Start timestamp, inclusive
    pub from: Vec<u8>,
    /// End timestamp, exclusive, if bounded
    pub to: Option<Vec<u8>>,
}

impl View for DeltaRange {
    type V = DeltaRangeView;

    open spec fn view(&self) -> DeltaRangeView {
        DeltaRangeView {
            from: self.from@,
            to: match self.to {
                Some(t) => Some(t@),
                None => None,
            },
        }
    }
}

/// The wire form of an optional delta range: null when absent, else an
/// array of the bounds.
pub open spec fn spec_enc_opt_range(o: Option<DeltaRangeView>) -> Seq<u8> {
    match o {
        Some(rg) => spec_enc_array(2) + spec_enc_bytes(rg.from) + spec_enc_opt_bytes(rg.to),
        None => crate::codec::spec_enc_null(),
    }
}

/// The optional delta range at a position.
pub open spec fn spec_dec_opt_range_at(b: Seq<u8>, pos: int) -> Option<
    (Option<DeltaRangeView>, int),
> {
    if 0 <= pos < b.len() && b[pos] == 0xf6 {
        Some((None, pos + 1))
    } else {
        match spec_item_head_at(b, pos) {
            Some((m, two, p)) => if m == 4 && two == 2 {
                match spec_dec_bytes_at(b, p) {
                    Some((from, p1)) => match spec_dec_opt_bytes_at(b, p1) {
                        Some((to, p2)) => Some(
                            (Some(DeltaRangeView { from, to }), p2),
                        ),
                        None => None,
                    },
                    None => None,
                }
            } else {
                None
            },
            None => None,
        }
    }
}

/// An optional delta range reads back as written.
pub proof fn lemma_opt_range_roundtrip(b: Seq<u8>, pos: int, o: Option<DeltaRangeView>)
    requires
        (o matches Some(rg) ==> rg.from.len() <= u64::MAX && (rg.to matches Some(t) ==> t.len()
            <= u64::MAX)),
        starts_with_at(b, pos, spec_enc_opt_range(o)),
    ensures
        spec_dec_opt_range_at(b, pos) == Some((o, pos + spec_enc_opt_range(o).len())),
{
    crate::bytes_be::lemma_be_bytes_properties();
    match o {
        Some(rg) => {
            assert(spec_enc_opt_range(o) =~= spec_enc_array(2) + (spec_enc_bytes(rg.from)
                + spec_enc_opt_bytes(rg.to)));
            lemma_starts_with_concat(
                b,
                pos,
                spec_enc_array(2),
                spec_enc_bytes(rg.from) + spec_enc_opt_bytes(rg.to),
            );
            lemma_head_match(b, pos, 4, 2);
            let p = pos + 9;
            lemma_starts_with_concat(b, p, spec_enc_bytes(rg.from), spec_enc_opt_bytes(rg.to));
            lemma_bytes_roundtrip(b, p, rg.from);
            let p1 = p + spec_enc_bytes(rg.from).len() as int;
            lemma_opt_bytes_roundtrip(b, p1, rg.to);
            assert(b[pos] == 4 * 32 + 27);
        },
        None => {
            assert(b.subrange(pos, pos + 1)[0] == b[pos]);
            assert(b[pos] == 0xf6);
        },
    }
}

/// The mathematical form of an anti-entropy request.
#[verifier::ext_equal]
pub struct AntiEntropyRequestView {
    pub doc_id: Seq<char>,
    pub have_summary: Seq<u8>,
    pub want_range: Option<DeltaRangeView>,
}

/// An anti-entropy request: what the requester has, and optionally which
/// range it wants.
#[derive(Debug, PartialEq, Eq)]
pub struct AntiEntropyRequest {
    /// Document identifier
    pub doc_id: String,
    /// Digest of local state; the first eight bytes carry a big-endian
    /// physical-time threshold
    pub have_summary: Vec<u8>,
    /// The requested delta range, if narrowed
    pub want_range: Option<DeltaRange>,
}

impl View for AntiEntropyRequest {
    type V = AntiEntropyRequestView;

    open spec fn view(&self) -> AntiEntropyRequestView {
        AntiEntropyRequestView {
            doc_id: self.doc_id@,
            have_summary: self.have_summary@,
            want_range: match self.want_range {
                Some(ref rg) => Some(rg@),
                None => None,
            },
        }
    }
}

/// The wire form of an anti-entropy request.
pub open spec fn spec_enc_ae_request(m: AntiEntropyRequestView) -> Seq<u8> {
    crate::codec::spec_enc_map(3) + spec_enc_key("doc_id"@) + spec_enc_text(m.doc_id)
        + spec_enc_key("have_summary"@) + spec_enc_bytes(m.have_summary) + spec_enc_key(
        "want_range"@,
    ) + spec_enc_opt_range(m.want_range)
}

pub open spec fn ae_request_bounded(m: AntiEntropyRequestView) -> bool {
    &&& encode_utf8(m.doc_id).len() <= u64::MAX
    &&& m.have_summary.len() <= u64::MAX
    &&& (m.want_range matches Some(rg) ==> rg.from.len() <= u64::MAX && (rg.to matches Some(t)
        ==> t.len() <= u64::MAX))
}

/// The anti-entropy request at a position.
#[verifier::opaque]
pub open spec fn spec_dec_ae_request_at(b: Seq<u8>, pos: int) -> Option<
    (AntiEntropyRequestView, int),
> {
    match spec_item_head_at(b, pos) {
        Some((m0, cnt, q0)) => if m0 == 5 && (cnt == 3 || cnt == 2) {
            match spec_dec_text_at(b, q0) {
                Some((k1, q1)) => if k1 == "doc_id"@ {
                    match spec_dec_text_at(b, q1) {
                        Some((doc_id, q2)) => match spec_dec_text_at(b, q2) {
                            Some((k2, q3)) => if k2 == "have_summary"@ {
                                match spec_dec_bytes_at(b, q3) {
                                    Some((hs, q4)) => if cnt == 2 {
                                        Some(
                                            (
                                            AntiEntropyRequestView {
                                                doc_id,
                                                have_summary: hs,
                                                want_range: None,
                                            },
                                            q4,
                                        ),
                                        )
                                    } else {
                                        match spec_dec_text_at(b, q4) {
                                            Some((k3, q5)) => if k3 == "want_range"@ {
                                                match spec_dec_opt_range_at(b, q5) {
                                                    Some((rg, q6)) => Some(
                                                        (
                                                        AntiEntropyRequestView {
                                                            doc_id,
                                                            have_summary: hs,
                                                            want_range: rg,
                                                        },
                                                        q6,
                                                    ),
                                                    ),
                                                    None => None,
                                                }
                                            } else {
                                                None
                                            },
                                            None => None,
                                        }
                                    },
                                    None => None,
                                }
                            } else {
                                None
                            },
                            None => None,
                        },
                        None => None,
                    }
                } else {
                    None
                },
                None => None,
            }
        } else {
            None
        },
        None => None,
    }
}

/// The wire round trip for anti-entropy requests.
#[verifier::rlimit(100)]
#[verifier::spinoff_prover]
pub proof fn lemma_ae_request_roundtrip(b: Seq<u8>, pos: int, m: AntiEntropyRequestView)
    requires
        ae_request_bounded(m),
        starts_with_at(b, pos, spec_enc_ae_request(m)),
    ensures
        spec_dec_ae_request_at(b, pos) == Some((m, pos + spec_enc_ae_request(m).len())),
{
    reveal(spec_dec_ae_request_at);
    crate::bytes_be::lemma_be_bytes_properties();
    proof_distinct_keys();
    let k1 = spec_enc_key("doc_id"@);
    let docb = spec_enc_text(m.doc_id);
    let k2 = spec_enc_key("have_summary"@);
    let hsb = spec_enc_bytes(m.have_summary);
    let k3 = spec_enc_key("want_range"@);
    let rgb = spec_enc_opt_range(m.want_range);
    assert(spec_enc_ae_request(m) =~= crate::codec::spec_enc_map(3) + (k1 + (docb + (k2 + (hsb
        + (k3 + rgb))))));
    lemma_starts_with_concat(
        b,
        pos,
        crate::codec::spec_enc_map(3),
        k1 + (docb + (k2 + (hsb + (k3 + rgb)))),
    );
    lemma_head_match(b, pos, 5, 3);
    let q0 = pos + 9;
    lemma_starts_with_concat(b, q0, k1, docb + (k2 + (hsb + (k3 + rgb))));
    lemma_text_roundtrip(b, q0, "doc_id"@);
    let q1 = q0 + k1.len() as int;
    lemma_starts_with_concat(b, q1, docb, k2 + (hsb + (k3 + rgb)));
    lemma_text_roundtrip(b, q1, m.doc_id);
    let q2 = q1 + docb.len() as int;
    lemma_starts_with_concat(b, q2, k2, hsb + (k3 + rgb));
    lemma_text_roundtrip(b, q2, "have_summary"@);
    let q3 = q2 + k2.len() as int;
    lemma_starts_with_concat(b, q3, hsb, k3 + rgb);
    lemma_bytes_roundtrip(b, q3, m.have_summary);
    let q4 = q3 + hsb.len() as int;
    lemma_starts_with_concat(b, q4, k3, rgb);
    lemma_text_roundtrip(b, q4, "want_range"@);
    let q5 = q4 + k3.len() as int;
    lemma_opt_range_roundtrip(b, q5, m.want_range);
}

impl AntiEntropyRequest {
    /// A request advertising what the requester already has.
    pub fn new(doc_id: String, have_summary: Vec<u8>) -> (r: AntiEntropyRequest)
        ensures
            r@.doc_id == doc_id@,
            r@.have_summary == have_summary@,
            r@.want_range is None,
    {
        AntiEntropyRequest { doc_id, have_summary, want_range: None }
    }

    /// Serialize to the wire form; serialization always succeeds.
    pub fn to_cbor(&self) -> (r: Result<Vec<u8>, MessageError>)
        ensures
            r is Ok,
            r matches Ok(out) ==> out@ == spec_enc_ae_request(self@) && ae_request_bounded(
                self@,
            ),
    {
        proof {
            reveal_strlit("doc_id");
            reveal_strlit("have_summary");
            reveal_strlit("want_range");
        }
        let mut out: Vec<u8> = Vec::new();
        enc_head(&mut out, 5, 3);
        enc_text(&mut out, "doc_id");
        enc_text(&mut out, self.doc_id.as_str());
        let t1 = out.len();
        proof {
            assert(encode_utf8(self@.doc_id).len() <= t1);
        }
        enc_text(&mut out, "have_summary");
        let n1 = self.have_summary.len();
        proof {
            assert(self.have_summary@.len() == n1);
        }
        enc_bytes(&mut out, self.have_summary.as_slice());
        enc_text(&mut out, "want_range");
        match &self.want_range {
            Some(rg) => {
                enc_head(&mut out, 4, 2);
                let n2 = rg.from.len();
                proof {
                    assert(rg.from@.len() == n2);
                }
                enc_bytes(&mut out, rg.from.as_slice());
                match &rg.to {
                    Some(t) => {
                        let nt = t.len();
                        proof {
                            assert(t@.len() == nt);
                        }
                    },
                    None => {},
                }
                enc_opt_bytes(&mut out, &rg.to);
            },
            None => {
                out.push(0xf6);
            },
        }
        proof {
            assert(out@ =~= spec_enc_ae_request(self@));
        }
        Ok(out)
    }

    /// Deserialize from the wire form.
    pub fn from_cbor(bytes: &[u8]) -> (r: Result<AntiEntropyRequest, MessageError>)
        ensures
            r matches Ok(m) ==> (spec_dec_ae_request_at(bytes@, 0) matches Some(q) && q.0
                == m@),
            r is Err ==> spec_dec_ae_request_at(bytes@, 0) is None,
    {
        proof {
            reveal(spec_dec_ae_request_at);
        }
        proof {
            reveal_strlit("doc_id");
            reveal_strlit("have_summary");
            reveal_strlit("want_range");
            proof_distinct_keys();
        }
        let (m0, cnt, q0) = match parse_item_head(bytes, 0) {
            Ok(h) => h,
            Err(()) => {
                return Err(MessageError::Deserialize);
            },
        };
        if m0 != 5 || (cnt != 3 && cnt != 2) {
            return Err(MessageError::Deserialize);
        }
        let q1 = match expect_key(bytes, q0, "doc_id") {
            Ok(p) => p,
            Err(()) => {
                return Err(MessageError::Deserialize);
            },
        };
        let (doc_id, q2) = match parse_text_item(bytes, q1) {
            Ok(x) => x,
            Err(()) => {
                return Err(MessageError::Deserialize);
            },
        };
        let q3 = match expect_key(bytes, q2, "have_summary") {
            Ok(p) => p,
            Err(()) => {
                return Err(MessageError::Deserialize);
            },
        };
        let (have_summary, q4) = match parse_bytes_item(bytes, q3) {
            Ok(x) => x,
            Err(()) => {
                return Err(MessageError::Deserialize);
            },
        };
        if cnt == 2 {
            // a sender that omitted the optional range entry
            return Ok(AntiEntropyRequest { doc_id, have_summary, want_range: None });
        }
        let q5 = match expect_key(bytes, q4, "want_range") {
            Ok(p) => p,
            Err(()) => {
                return Err(MessageError::Deserialize);
            },
        };
        let n = bytes.len();
        let want_range: Option<DeltaRange> = if q5 < n && bytes[q5] == 0xf6 {
            None
        } else {
            match parse_item_head(bytes, q5) {
                Ok((mr, two, p)) => {
                    if mr != 4 || two != 2 {
                        return Err(MessageError::Deserialize);
                    }
                    let (from, p1) = match parse_bytes_item(bytes, p) {
                        Ok(x) => x,
                        Err(()) => {
                            return Err(MessageError::Deserialize);
                        },
                    };
                    let (to, _p2) = match parse_opt_bytes(bytes, p1) {
                        Ok(x) => x,
                        Err(()) => {
                            return Err(MessageError::Deserialize);
                        },
                    };
                    Some(DeltaRange { from, to })
                },
                Err(()) => {
                    return Err(MessageError::Deserialize);
                },
            }
        };
        Ok(AntiEntropyRequest { doc_id, have_summary, want_range })
    }
}


/// The mathematical form of an anti-entropy response.
#[verifier::ext_equal]
pub struct AntiEntropyResponseView {
    pub doc_id: Seq<char>,
    pub deltas: Seq<DocDeltaView>,
    pub snapshot: Option<Seq<u8>>,
}

/// An anti-entropy response: the deltas the requester is missing, or a
/// full snapshot, or both; a snapshot takes precedence on apply.
#[derive(Debug, PartialEq, Eq)]
pub struct AntiEntropyResponse {
    /// Document identifier
    pub doc_id: String,
    /// Deltas the requester is missing
    pub deltas: Vec<DocDelta>,
    /// Full state snapshot, if sent
    pub snapshot: Option<Vec<u8>>,
}

impl View for AntiEntropyResponse {
    type V = AntiEntropyResponseView;

    open spec fn view(&self) -> AntiEntropyResponseView {
        AntiEntropyResponseView {
            doc_id: self.doc_id@,
            deltas: self.deltas@.map_values(|d: DocDelta| d@),
            snapshot: match self.snapshot {
                Some(s) => Some(s@),
                None => None,
            },
        }
    }
}

pub open spec fn spec_enc_doc_delta_seq(ds: Seq<DocDeltaView>) -> Seq<u8>
    decreases ds.len(),
{
    if ds.len() == 0 {
        Seq::empty()
    } else {
        spec_enc_doc_delta(ds[0]) + spec_enc_doc_delta_seq(ds.drop_first())
    }
}

pub proof fn lemma_enc_doc_delta_seq_snoc(ds: Seq<DocDeltaView>, x: DocDeltaView)
    ensures
        spec_enc_doc_delta_seq(ds.push(x)) == spec_enc_doc_delta_seq(ds) + spec_enc_doc_delta(x),
    decreases ds.len(),
{
    reveal_with_fuel(spec_enc_doc_delta_seq, 3);
    if ds.len() == 0 {
        assert(ds.push(x)[0] == x);
        assert(ds.push(x).drop_first() =~= Seq::<DocDeltaView>::empty());
        assert(spec_enc_doc_delta_seq(ds.push(x)) =~= spec_enc_doc_delta(x));
        assert(spec_enc_doc_delta_seq(ds) + spec_enc_doc_delta(x) =~= spec_enc_doc_delta(x));
    } else {
        assert(ds.push(x)[0] == ds[0]);
        assert(ds.push(x).drop_first() =~= ds.drop_first().push(x));
        lemma_enc_doc_delta_seq_snoc(ds.drop_first(), x);
        assert(spec_enc_doc_delta_seq(ds.push(x)) =~= spec_enc_doc_delta_seq(ds)
            + spec_enc_doc_delta(x));
    }
}

pub open spec fn spec_dec_doc_delta_seq_at(b: Seq<u8>, pos: int, n: u64) -> Option<
    (Seq<DocDeltaView>, int),
>
    decreases n,
{
    if n == 0 {
        Some((Seq::empty(), pos))
    } else {
        match spec_dec_doc_delta_at(b, pos) {
            Some((d, p)) => if pos < p && p <= b.len() {
                match spec_dec_doc_delta_seq_at(b, p, (n - 1) as u64) {
                    Some((rest, p2)) => Some((seq![d] + rest, p2)),
                    None => None,
                }
            } else {
                None
            },
            None => None,
        }
    }
}

#[verifier::rlimit(100)]
#[verifier::spinoff_prover]
pub proof fn lemma_doc_delta_seq_roundtrip(b: Seq<u8>, pos: int, ds: Seq<DocDeltaView>)
    requires
        ds.len() <= u64::MAX,
        forall|i: int| 0 <= i < ds.len() ==> doc_delta_bounded(#[trigger] ds[i]),
        starts_with_at(b, pos, spec_enc_doc_delta_seq(ds)),
    ensures
        spec_dec_doc_delta_seq_at(b, pos, ds.len() as u64) == Some(
            (ds, pos + spec_enc_doc_delta_seq(ds).len()),
        ),
    decreases ds.len(),
{
    reveal_with_fuel(spec_enc_doc_delta_seq, 2);
    if ds.len() == 0 {
        assert(spec_enc_doc_delta_seq(ds).len() == 0);
    } else {
        let head = spec_enc_doc_delta(ds[0]);
        let rest = ds.drop_first();
        assert(spec_enc_doc_delta_seq(ds) =~= head + spec_enc_doc_delta_seq(rest));
        lemma_starts_with_concat(b, pos, head, spec_enc_doc_delta_seq(rest));
        lemma_doc_delta_roundtrip(b, pos, ds[0]);
        let p = pos + head.len() as int;
        assert forall|i: int| 0 <= i < rest.len() implies doc_delta_bounded(
            #[trigger] rest[i],
        ) by {
            assert(rest[i] == ds[i + 1]);
        }
        lemma_doc_delta_seq_roundtrip(b, p, rest);
        assert(seq![ds[0]] + rest =~= ds);
    }
}

/// The wire form of an anti-entropy response.
pub open spec fn spec_enc_ae_response(m: AntiEntropyResponseView) -> Seq<u8> {
    crate::codec::spec_enc_map(3) + spec_enc_key("doc_id"@) + spec_enc_text(m.doc_id)
        + spec_enc_key("deltas"@) + spec_enc_array(m.deltas.len() as u64)
        + spec_enc_doc_delta_seq(m.deltas) + spec_enc_key("snapshot"@) + spec_enc_opt_bytes(
        m.snapshot,
    )
}

pub open spec fn ae_response_bounded(m: AntiEntropyResponseView) -> bool {
    &&& encode_utf8(m.doc_id).len() <= u64::MAX
    &&& m.deltas.len() <= u64::MAX
    &&& forall|i: int| 0 <= i < m.deltas.len() ==> doc_delta_bounded(#[trigger] m.deltas[i])
    &&& (m.snapshot matches Some(s) ==> s.len() <= u64::MAX)
}

/// The anti-entropy response at a position.
#[verifier::opaque]
pub open spec fn spec_dec_ae_response_at(b: Seq<u8>, pos: int) -> Option<
    (AntiEntropyResponseView, int),
> {
    match spec_item_head_at(b, pos) {
        Some((m0, cnt, q0)) => if m0 == 5 && (cnt == 3 || cnt == 2) {
            match spec_dec_text_at(b, q0) {
                Some((k1, q1)) => if k1 == "doc_id"@ {
                    match spec_dec_text_at(b, q1) {
                        Some((doc_id, q2)) => match spec_dec_text_at(b, q2) {
                            Some((k2, q3)) => if k2 == "deltas"@ && 0 <= q3 {
                                match spec_item_head_at(b, q3) {
                                    Some((m1, n1, q4)) => if m1 == 4 {
                                        match spec_dec_doc_delta_seq_at(b, q4, n1) {
                                            Some((ds, q5)) => if cnt == 2 {
                                                Some(
                                                    (
                                                    AntiEntropyResponseView {
                                                        doc_id,
                                                        deltas: ds,
                                                        snapshot: None,
                                                    },
                                                    q5,
                                                ),
                                                )
                                            } else {
                                                match spec_dec_text_at(b, q5) {
                                                    Some((k3, q6)) => if k3 == "snapshot"@ {
                                                        match spec_dec_opt_bytes_at(b, q6) {
                                                            Some((snap, q7)) => Some(
                                                                (
                                                                AntiEntropyResponseView {
                                                                    doc_id,
                                                                    deltas: ds,
                                                                    snapshot: snap,
                                                                },
                                                                q7,
                                                            ),
                                                            ),
                                                            None => None,
                                                        }
                                                    } else {
                                                        None
                                                    },
                                                    None => None,
                                                }
                                            },
                                            None => None,
                                        }
                                    } else {
                                        None
                                    },
                                    None => None,
                                }
                            } else {
                                None
                            },
                            None => None,
                        },
                        None => None,
                    }
                } else {
                    None
                },
                None => None,
            }
        } else {
            None
        },
        None => None,
    }
}

/// The wire round trip for anti-entropy responses.
#[verifier::rlimit(80)]
#[verifier::spinoff_prover]
pub proof fn lemma_ae_response_roundtrip(b: Seq<u8>, pos: int, m: AntiEntropyResponseView)
    requires
        ae_response_bounded(m),
        starts_with_at(b, pos, spec_enc_ae_response(m)),
    ensures
        spec_dec_ae_response_at(b, pos) == Some((m, pos + spec_enc_ae_response(m).len())),
{
    reveal(spec_dec_ae_response_at);
    crate::bytes_be::lemma_be_bytes_properties();
    proof_distinct_keys();
    let k1 = spec_enc_key("doc_id"@);
    let docb = spec_enc_text(m.doc_id);
    let k2 = spec_enc_key("deltas"@);
    let ah = spec_enc_array(m.deltas.len() as u64);
    let dsb = spec_enc_doc_delta_seq(m.deltas);
    let k3 = spec_enc_key("snapshot"@);
    let snb = spec_enc_opt_bytes(m.snapshot);
    assert(spec_enc_ae_response(m) =~= crate::codec::spec_enc_map(3) + (k1 + (docb + (k2 + (ah
        + (dsb + (k3 + snb)))))));
    lemma_starts_with_concat(
        b,
        pos,
        crate::codec::spec_enc_map(3),
        k1 + (docb + (k2 + (ah + (dsb + (k3 + snb))))),
    );
    lemma_head_match(b, pos, 5, 3);
    let q0 = pos + 9;
    lemma_starts_with_concat(b, q0, k1, docb + (k2 + (ah + (dsb + (k3 + snb)))));
    lemma_text_roundtrip(b, q0, "doc_id"@);
    let q1 = q0 + k1.len() as int;
    lemma_starts_with_concat(b, q1, docb, k2 + (ah + (dsb + (k3 + snb))));
    lemma_text_roundtrip(b, q1, m.doc_id);
    let q2 = q1 + docb.len() as int;
    lemma_starts_with_concat(b, q2, k2, ah + (dsb + (k3 + snb)));
    lemma_text_roundtrip(b, q2, "deltas"@);
    let q3 = q2 + k2.len() as int;
    lemma_starts_with_concat(b, q3, ah, dsb + (k3 + snb));
    lemma_head_match(b, q3, 4, m.deltas.len() as u64);
    let q4 = q3 + 9;
    lemma_starts_with_concat(b, q4, dsb, k3 + snb);
    lemma_doc_delta_seq_roundtrip(b, q4, m.deltas);
    let q5 = q4 + dsb.len() as int;
    lemma_starts_with_concat(b, q5, k3, snb);
    lemma_text_roundtrip(b, q5, "snapshot"@);
    let q6 = q5 + k3.len() as int;
    lemma_opt_bytes_roundtrip(b, q6, m.snapshot);
}

impl AntiEntropyResponse {
    /// A response carrying deltas.
    pub fn with_deltas(doc_id: String, deltas: Vec<DocDelta>) -> (r: AntiEntropyResponse)
        ensures
            r@.doc_id == doc_id@,
            r@.deltas == deltas@.map_values(|d: DocDelta| d@),
            r@.snapshot is None,
    {
        AntiEntropyResponse { doc_id, deltas, snapshot: None }
    }

    /// A response carrying a full snapshot.
    pub fn with_snapshot(doc_id: String, snapshot: Vec<u8>) -> (r: AntiEntropyResponse)
        ensures
            r@.doc_id == doc_id@,
            r@.deltas == Seq::<DocDeltaView>::empty(),
            r@.snapshot == Some(snapshot@),
    {
        let r = AntiEntropyResponse { doc_id, deltas: Vec::new(), snapshot: Some(snapshot) };
        proof {
            assert(r@.deltas =~= Seq::<DocDeltaView>::empty());
        }
        r
    }

    /// Serialize to the wire form; serialization always succeeds.
    #[verifier::rlimit(80)]
    #[verifier::spinoff_prover]
    pub fn to_cbor(&self) -> (r: Result<Vec<u8>, MessageError>)
        ensures
            r is Ok,
            r matches Ok(out) ==> out@ == spec_enc_ae_response(self@) && ae_response_bounded(
                self@,
            ),
    {
        proof {
            reveal_strlit("doc_id");
            reveal_strlit("deltas");
            reveal_strlit("snapshot");
        }
        let mut out: Vec<u8> = Vec::new();
        enc_head(&mut out, 5, 3);
        enc_text(&mut out, "doc_id");
        enc_text(&mut out, self.doc_id.as_str());
        let t1 = out.len();
        proof {
            assert(encode_utf8(self@.doc_id).len() <= t1);
        }
        enc_text(&mut out, "deltas");
        enc_head(&mut out, 4, self.deltas.len() as u64);
        let ghost base = out@;
        let nd = self.deltas.len();
        let mut i: usize = 0;
        proof {
            assert(self@.deltas.take(0) =~= Seq::<DocDeltaView>::empty());
            assert(base + spec_enc_doc_delta_seq(self@.deltas.take(0)) =~= base);
        }
        while i < nd
            invariant
                nd == self.deltas@.len(),
                i <= nd,
                out@ == base + spec_enc_doc_delta_seq(self@.deltas.take(i as int)),
                forall|k: int| 0 <= k < i ==> doc_delta_bounded(#[trigger] self@.deltas[k]),
            decreases nd - i,
        {
            let enc = match self.deltas[i].to_cbor() {
                Ok(e) => e,
                Err(_) => {
                    proof {
                        assert(false);
                    }
                    return Err(MessageError::Serialize);
                },
            };
            crate::codec::enc_raw(&mut out, enc.as_slice());
            i += 1;
            proof {
                lemma_enc_doc_delta_seq_snoc(self@.deltas.take(i - 1), self@.deltas[i - 1]);
                assert(self@.deltas.take(i as int) =~= self@.deltas.take(i - 1).push(
                    self@.deltas[i - 1],
                ));
                assert(self@.deltas[i - 1] == self.deltas@[i - 1]@);
                assert(out@ =~= base + spec_enc_doc_delta_seq(self@.deltas.take(i as int)));
            }
        }
        proof {
            assert(self@.deltas.take(nd as int) =~= self@.deltas);
        }
        enc_text(&mut out, "snapshot");
        match &self.snapshot {
            Some(s) => {
                let ns = s.len();
                proof {
                    assert(s@.len() == ns);
                }
                enc_bytes(&mut out, s.as_slice());
            },
            None => {
                out.push(0xf6);
            },
        }
        proof {
            assert(out@ =~= spec_enc_ae_response(self@));
        }
        Ok(out)
    }

    /// Deserialize from the wire form.
    pub fn from_cbor(bytes: &[u8]) -> (r: Result<AntiEntropyResponse, MessageError>)
        ensures
            r matches Ok(m) ==> (spec_dec_ae_response_at(bytes@, 0) matches Some(q) && q.0
                == m@),
            r is Err ==> spec_dec_ae_response_at(bytes@, 0) is None,
    {
        proof {
            reveal(spec_dec_ae_response_at);
        }
        proof {
            reveal_strlit("doc_id");
            reveal_strlit("deltas");
            reveal_strlit("snapshot");
            proof_distinct_keys();
        }
        let (m0, cnt, q0) = match parse_item_head(bytes, 0) {
            Ok(h) => h,
            Err(()) => {
                return Err(MessageError::Deserialize);
            },
        };
        if m0 != 5 || (cnt != 3 && cnt != 2) {
            return Err(MessageError::Deserialize);
        }
        let q1 = match expect_key(bytes, q0, "doc_id") {
            Ok(p) => p,
            Err(()) => {
                return Err(MessageError::Deserialize);
            },
        };
        let (doc_id, q2) = match parse_text_item(bytes, q1) {
            Ok(x) => x,
            Err(()) => {
                return Err(MessageError::Deserialize);
            },
        };
        let q3 = match expect_key(bytes, q2, "deltas") {
            Ok(p) => p,
            Err(()) => {
                return Err(MessageError::Deserialize);
            },
        };
        let (m1, n1, q4) = match parse_item_head(bytes, q3) {
            Ok(h) => h,
            Err(()) => {
                return Err(MessageError::Deserialize);
            },
        };
        if m1 != 4 {
            return Err(MessageError::Deserialize);
        }
        let ghost ds_target = spec_dec_doc_delta_seq_at(bytes@, q4 as int, n1);
        let mut deltas: Vec<DocDelta> = Vec::new();
        let mut cur = q4;
        let mut remn = n1;
        while remn > 0
            invariant
                0 < cur <= bytes@.len(),
                (match spec_dec_doc_delta_seq_at(bytes@, cur as int, remn) {
                    Some((rest, pend)) => ds_target == Some::<(Seq<DocDeltaView>, int)>(
                        (deltas@.map_values(|d: DocDelta| d@) + rest, pend),
                    ),
                    None => ds_target is None,
                }),
            decreases remn,
        {
            let ghost pre = deltas@;
            let (d, p) = match parse_doc_delta(bytes, cur) {
                Ok(x) => x,
                Err(()) => {
                    return Err(MessageError::Deserialize);
                },
            };
            deltas.push(d);
            proof {
                let f = |d: DocDelta| d@;
                assert(deltas@.map_values(f) =~= pre.map_values(f).push(deltas@.last()@));
                assert(match spec_dec_doc_delta_seq_at(bytes@, p as int, (remn - 1) as u64) {
                    Some((rest, pend)) => pre.map_values(f) + (seq![deltas@.last()@] + rest)
                        =~= deltas@.map_values(f) + rest,
                    None => true,
                });
            }
            cur = p;
            remn = remn - 1;
        }
        proof {
            assert(deltas@.map_values(|d: DocDelta| d@) + Seq::<DocDeltaView>::empty()
                =~= deltas@.map_values(|d: DocDelta| d@));
        }
        if cnt == 2 {
            // a sender that omitted the optional snapshot entry
            return Ok(AntiEntropyResponse { doc_id, deltas, snapshot: None });
        }
        let q6 = match expect_key(bytes, cur, "snapshot") {
            Ok(p) => p,
            Err(()) => {
                return Err(MessageError::Deserialize);
            },
        };
        let (snapshot, _q7) = match parse_opt_bytes(bytes, q6) {
            Ok(x) => x,
            Err(()) => {
                return Err(MessageError::Deserialize);
            },
        };
        Ok(AntiEntropyResponse { doc_id, deltas, snapshot })
    }
}


/// The wire form of one live state row: an array of the key, the value,
/// the write stamp and the creation stamp.
pub open spec fn spec_enc_state_entry(e: (Seq<char>, EntryView)) -> Seq<u8> {
    spec_enc_array(4) + spec_enc_text(e.0) + spec_enc_json(e.1.reg.value) + spec_enc_ts(
        e.1.reg.timestamp,
    ) + spec_enc_ts(e.1.created_at)
}

pub open spec fn spec_enc_state_entry_seq(es: Seq<(Seq<char>, EntryView)>) -> Seq<u8>
    decreases es.len(),
{
    if es.len() == 0 {
        Seq::empty()
    } else {
        spec_enc_state_entry(es[0]) + spec_enc_state_entry_seq(es.drop_first())
    }
}

pub proof fn lemma_enc_state_entry_seq_snoc(
    es: Seq<(Seq<char>, EntryView)>,
    x: (Seq<char>, EntryView),
)
    ensures
        spec_enc_state_entry_seq(es.push(x)) == spec_enc_state_entry_seq(es)
            + spec_enc_state_entry(x),
    decreases es.len(),
{
    reveal_with_fuel(spec_enc_state_entry_seq, 3);
    if es.len() == 0 {
        assert(es.push(x)[0] == x);
        assert(es.push(x).drop_first() =~= Seq::<(Seq<char>, EntryView)>::empty());
        assert(spec_enc_state_entry_seq(es.push(x)) =~= spec_enc_state_entry(x));
        assert(spec_enc_state_entry_seq(es) + spec_enc_state_entry(x) =~= spec_enc_state_entry(
            x,
        ));
    } else {
        assert(es.push(x)[0] == es[0]);
        assert(es.push(x).drop_first() =~= es.drop_first().push(x));
        lemma_enc_state_entry_seq_snoc(es.drop_first(), x);
        assert(spec_enc_state_entry_seq(es.push(x)) =~= spec_enc_state_entry_seq(es)
            + spec_enc_state_entry(x));
    }
}

/// The wire form of a whole map state: the live rows, then the tombstone
/// rows, each under a count.
pub open spec fn spec_enc_or_map(
    es: Seq<(Seq<char>, EntryView)>,
    ts_rows: Seq<(Seq<char>, Timestamp)>,
) -> Seq<u8> {
    spec_enc_array(2) + spec_enc_array(es.len() as u64) + spec_enc_state_entry_seq(es)
        + spec_enc_array(ts_rows.len() as u64) + spec_enc_rem_seq(ts_rows)
}

/// Whether state rows fit the wire's length fields.
pub open spec fn state_bounded(
    es: Seq<(Seq<char>, EntryView)>,
    ts_rows: Seq<(Seq<char>, Timestamp)>,
) -> bool {
    &&& es.len() <= u64::MAX
    &&& ts_rows.len() <= u64::MAX
    &&& forall|i: int|
        0 <= i < es.len() ==> encode_utf8(#[trigger] es[i].0).len() <= u64::MAX
            && crate::codec::json_bounded(es[i].1.reg.value)
    &&& forall|i: int|
        0 <= i < ts_rows.len() ==> encode_utf8(#[trigger] ts_rows[i].0).len() <= u64::MAX
}

pub open spec fn spec_dec_state_entry_at(b: Seq<u8>, pos: int) -> Option<
    ((Seq<char>, EntryView), int),
> {
    match spec_item_head_at(b, pos) {
        Some((m, n, p)) => if m == 4 && n == 4 {
            match spec_dec_text_at(b, p) {
                Some((k, p1)) => match spec_dec_json_at(b, p1) {
                    Some((v, p2)) => if 0 <= p2 {
                        match spec_dec_ts_at(b, p2) {
                            Some((wt, p3)) => match spec_dec_ts_at(b, p3) {
                                Some((ct, p4)) => Some(
                                    (
                                    (
                                        k,
                                        EntryView {
                                            reg: RegView { value: v, timestamp: wt },
                                            created_at: ct,
                                        },
                                    ),
                                    p4,
                                ),
                                ),
                                None => None,
                            },
                            None => None,
                        }
                    } else {
                        None
                    },
                    None => None,
                },
                None => None,
            }
        } else {
            None
        },
        None => None,
    }
}

pub open spec fn spec_dec_state_entry_seq_at(b: Seq<u8>, pos: int, n: u64) -> Option<
    (Seq<(Seq<char>, EntryView)>, int),
>
    decreases n,
{
    if n == 0 {
        Some((Seq::empty(), pos))
    } else {
        match spec_dec_state_entry_at(b, pos) {
            Some((e, p)) => if pos < p && p <= b.len() {
                match spec_dec_state_entry_seq_at(b, p, (n - 1) as u64) {
                    Some((rest, p2)) => Some((seq![e] + rest, p2)),
                    None => None,
                }
            } else {
                None
            },
            None => None,
        }
    }
}

/// The map state at a position: the live rows, then the tombstone rows.
#[verifier::opaque]
pub open spec fn spec_dec_or_map_at(b: Seq<u8>, pos: int) -> Option<
    ((Seq<(Seq<char>, EntryView)>, Seq<(Seq<char>, Timestamp)>), int),
> {
    match spec_item_head_at(b, pos) {
        Some((m0, two, q0)) => if m0 == 4 && two == 2 {
            match spec_item_head_at(b, q0) {
                Some((m1, n1, q1)) => if m1 == 4 {
                    match spec_dec_state_entry_seq_at(b, q1, n1) {
                        Some((es, q2)) => match spec_item_head_at(b, q2) {
                            Some((m2, n2, q3)) => if m2 == 4 {
                                match spec_dec_rem_seq_at(b, q3, n2) {
                                    Some((ts_rows, q4)) => Some(((es, ts_rows), q4)),
                                    None => None,
                                }
                            } else {
                                None
                            },
                            None => None,
                        },
                        None => None,
                    }
                } else {
                    None
                },
                None => None,
            }
        } else {
            None
        },
        None => None,
    }
}

/// One state row reads back as written.
pub proof fn lemma_state_entry_roundtrip(b: Seq<u8>, pos: int, e: (Seq<char>, EntryView))
    requires
        encode_utf8(e.0).len() <= u64::MAX,
        crate::codec::json_bounded(e.1.reg.value),
        starts_with_at(b, pos, spec_enc_state_entry(e)),
    ensures
        spec_dec_state_entry_at(b, pos) == Some((e, pos + spec_enc_state_entry(e).len())),
        spec_enc_state_entry(e).len() >= 1,
{
    crate::bytes_be::lemma_be_bytes_properties();
    assert(spec_enc_state_entry(e) =~= spec_enc_array(4) + (spec_enc_text(e.0) + (spec_enc_json(
        e.1.reg.value,
    ) + (spec_enc_ts(e.1.reg.timestamp) + spec_enc_ts(e.1.created_at)))));
    lemma_starts_with_concat(
        b,
        pos,
        spec_enc_array(4),
        spec_enc_text(e.0) + (spec_enc_json(e.1.reg.value) + (spec_enc_ts(e.1.reg.timestamp)
            + spec_enc_ts(e.1.created_at))),
    );
    lemma_head_match(b, pos, 4, 4);
    let p = pos + 9;
    lemma_starts_with_concat(
        b,
        p,
        spec_enc_text(e.0),
        spec_enc_json(e.1.reg.value) + (spec_enc_ts(e.1.reg.timestamp) + spec_enc_ts(
            e.1.created_at,
        )),
    );
    lemma_text_roundtrip(b, p, e.0);
    let p1 = p + spec_enc_text(e.0).len() as int;
    lemma_starts_with_concat(
        b,
        p1,
        spec_enc_json(e.1.reg.value),
        spec_enc_ts(e.1.reg.timestamp) + spec_enc_ts(e.1.created_at),
    );
    lemma_json_roundtrip(b, p1, e.1.reg.value);
    lemma_enc_json_len(e.1.reg.value);
    let p2 = p1 + spec_enc_json(e.1.reg.value).len() as int;
    lemma_starts_with_concat(
        b,
        p2,
        spec_enc_ts(e.1.reg.timestamp),
        spec_enc_ts(e.1.created_at),
    );
    lemma_ts_roundtrip(b, p2, e.1.reg.timestamp);
    let p3 = p2 + spec_enc_ts(e.1.reg.timestamp).len() as int;
    lemma_ts_roundtrip(b, p3, e.1.created_at);
}

/// A run of state rows reads back as written.
#[verifier::rlimit(100)]
#[verifier::spinoff_prover]
pub proof fn lemma_state_entry_seq_roundtrip(
    b: Seq<u8>,
    pos: int,
    es: Seq<(Seq<char>, EntryView)>,
)
    requires
        es.len() <= u64::MAX,
        forall|i: int|
            0 <= i < es.len() ==> encode_utf8(#[trigger] es[i].0).len() <= u64::MAX
                && crate::codec::json_bounded(es[i].1.reg.value),
        starts_with_at(b, pos, spec_enc_state_entry_seq(es)),
    ensures
        spec_dec_state_entry_seq_at(b, pos, es.len() as u64) == Some(
            (es, pos + spec_enc_state_entry_seq(es).len()),
        ),
    decreases es.len(),
{
    reveal_with_fuel(spec_enc_state_entry_seq, 2);
    if es.len() == 0 {
        assert(spec_enc_state_entry_seq(es).len() == 0);
    } else {
        let head = spec_enc_state_entry(es[0]);
        let rest = es.drop_first();
        assert(spec_enc_state_entry_seq(es) =~= head + spec_enc_state_entry_seq(rest));
        lemma_starts_with_concat(b, pos, head, spec_enc_state_entry_seq(rest));
        lemma_state_entry_roundtrip(b, pos, es[0]);
        let p = pos + head.len() as int;
        assert forall|i: int|
            0 <= i < rest.len() implies encode_utf8(#[trigger] rest[i].0).len() <= u64::MAX
            && crate::codec::json_bounded(rest[i].1.reg.value) by {
            assert(rest[i] == es[i + 1]);
        }
        lemma_state_entry_seq_roundtrip(b, p, rest);
        assert(seq![es[0]] + rest =~= es);
    }
}

/// The wire round trip for map states.
#[verifier::rlimit(100)]
#[verifier::spinoff_prover]
pub proof fn lemma_or_map_state_roundtrip(
    b: Seq<u8>,
    pos: int,
    es: Seq<(Seq<char>, EntryView)>,
    ts_rows: Seq<(Seq<char>, Timestamp)>,
)
    requires
        state_bounded(es, ts_rows),
        starts_with_at(b, pos, spec_enc_or_map(es, ts_rows)),
    ensures
        spec_dec_or_map_at(b, pos) == Some(((es, ts_rows), pos + spec_enc_or_map(
            es,
            ts_rows,
        ).len())),
{
    reveal(spec_dec_or_map_at);
    crate::bytes_be::lemma_be_bytes_properties();
    assert(spec_enc_or_map(es, ts_rows) =~= spec_enc_array(2) + (spec_enc_array(
        es.len() as u64,
    ) + (spec_enc_state_entry_seq(es) + (spec_enc_array(ts_rows.len() as u64) + spec_enc_rem_seq(
        ts_rows,
    )))));
    lemma_starts_with_concat(
        b,
        pos,
        spec_enc_array(2),
        spec_enc_array(es.len() as u64) + (spec_enc_state_entry_seq(es) + (spec_enc_array(
            ts_rows.len() as u64,
        ) + spec_enc_rem_seq(ts_rows))),
    );
    lemma_head_match(b, pos, 4, 2);
    let q0 = pos + 9;
    lemma_starts_with_concat(
        b,
        q0,
        spec_enc_array(es.len() as u64),
        spec_enc_state_entry_seq(es) + (spec_enc_array(ts_rows.len() as u64) + spec_enc_rem_seq(
            ts_rows,
        )),
    );
    lemma_head_match(b, q0, 4, es.len() as u64);
    let q1 = q0 + 9;
    lemma_starts_with_concat(
        b,
        q1,
        spec_enc_state_entry_seq(es),
        spec_enc_array(ts_rows.len() as u64) + spec_enc_rem_seq(ts_rows),
    );
    lemma_state_entry_seq_roundtrip(b, q1, es);
    let q2 = q1 + spec_enc_state_entry_seq(es).len() as int;
    lemma_starts_with_concat(
        b,
        q2,
        spec_enc_array(ts_rows.len() as u64),
        spec_enc_rem_seq(ts_rows),
    );
    lemma_head_match(b, q2, 4, ts_rows.len() as u64);
    let q3 = q2 + 9;
    lemma_rem_seq_roundtrip(b, q3, ts_rows);
}


/// The live-entry map a row sequence denotes; a later row wins a repeated
/// key.
pub open spec fn entry_rows_map(es: Seq<(Seq<char>, EntryView)>) -> Map<Seq<char>, EntryView>
    decreases es.len(),
{
    if es.len() == 0 {
        Map::empty()
    } else {
        entry_rows_map(es.drop_last()).insert(es.last().0, es.last().1)
    }
}

/// The tombstone map a row sequence denotes.
pub open spec fn tomb_rows_map(ts_rows: Seq<(Seq<char>, Timestamp)>) -> Map<Seq<char>, Timestamp>
    decreases ts_rows.len(),
{
    if ts_rows.len() == 0 {
        Map::empty()
    } else {
        tomb_rows_map(ts_rows.drop_last()).insert(ts_rows.last().0, ts_rows.last().1)
    }
}

/// What the map invariant demands of state rows: unique keys on both
/// sides, and no live write below its own key's tombstone.
pub open spec fn state_rows_valid(
    es: Seq<(Seq<char>, EntryView)>,
    ts_rows: Seq<(Seq<char>, Timestamp)>,
) -> bool {
    &&& forall|i: int, j: int| 0 <= i < j < es.len() ==> es[i].0 != es[j].0
    &&& forall|i: int, j: int| 0 <= i < j < ts_rows.len() ==> ts_rows[i].0 != ts_rows[j].0
    &&& forall|i: int, j: int|
        0 <= i < es.len() && 0 <= j < ts_rows.len() && #[trigger] es[i].0
            == #[trigger] ts_rows[j].0 ==> crate::hlc::ts_le(
            ts_rows[j].1,
            es[i].1.reg.timestamp,
        )
}

/// Stored entry rows denote the same map seen as view rows.
proof fn lemma_entry_rows_link(v: Seq<(String, MapEntry)>)
    ensures
        crate::assoc::assoc_view(v) == entry_rows_map(
            v.map_values(|p: (String, MapEntry)| (p.0@, p.1@)),
        ),
    decreases v.len(),
{
    reveal_with_fuel(entry_rows_map, 2);
    if v.len() > 0 {
        lemma_entry_rows_link(v.drop_last());
        let f = |p: (String, MapEntry)| (p.0@, p.1@);
        assert(v.map_values(f).drop_last() =~= v.drop_last().map_values(f));
        assert(v.map_values(f).last() == f(v.last()));
        assert(crate::assoc::assoc_view(v) =~= entry_rows_map(v.map_values(f)));
    } else {
        assert(crate::assoc::assoc_view(v) =~= entry_rows_map(
            v.map_values(|p: (String, MapEntry)| (p.0@, p.1@)),
        ));
    }
}

/// Stored tombstone rows denote the same map seen as view rows.
proof fn lemma_tomb_rows_link(v: Seq<(String, Timestamp)>)
    ensures
        crate::assoc::assoc_view(v) == tomb_rows_map(
            v.map_values(|p: (String, Timestamp)| (p.0@, p.1)),
        ),
    decreases v.len(),
{
    reveal_with_fuel(tomb_rows_map, 2);
    if v.len() > 0 {
        lemma_tomb_rows_link(v.drop_last());
        let f = |p: (String, Timestamp)| (p.0@, p.1);
        assert(v.map_values(f).drop_last() =~= v.drop_last().map_values(f));
        assert(v.map_values(f).last() == f(v.last()));
        assert(crate::assoc::assoc_view(v) =~= tomb_rows_map(v.map_values(f)));
    } else {
        assert(crate::assoc::assoc_view(v) =~= tomb_rows_map(
            v.map_values(|p: (String, Timestamp)| (p.0@, p.1)),
        ));
    }
}

impl OrMap {
    /// Serialize the whole state to the wire form: some valid row listing
    /// of exactly this state, encoded.
    #[verifier::rlimit(100)]
    #[verifier::spinoff_prover]
    pub fn to_cbor(&self) -> (r: Vec<u8>)
        requires
            self.inv(),
        ensures
            exists|es: Seq<(Seq<char>, EntryView)>, ts_rows: Seq<(Seq<char>, Timestamp)>|
                {
                    &&& #[trigger] spec_enc_or_map(es, ts_rows) == r@
                    &&& entry_rows_map(es) == self@.entries
                    &&& tomb_rows_map(ts_rows) == self@.tombstones
                    &&& state_bounded(es, ts_rows)
                    &&& state_rows_valid(es, ts_rows)
                },
    {
        let entries = self.entry_rows();
        let tombs = self.tombstone_rows();
        let ghost ges = entries@.map_values(|p: (String, MapEntry)| (p.0@, p.1@));
        let ghost gts = tombs@.map_values(|p: (String, Timestamp)| (p.0@, p.1));
        let mut out: Vec<u8> = Vec::new();
        enc_head(&mut out, 4, 2);
        enc_head(&mut out, 4, entries.len() as u64);
        let ghost base = out@;
        let ne = entries.len();
        let mut i: usize = 0;
        proof {
            assert(ges.take(0) =~= Seq::<(Seq<char>, EntryView)>::empty());
            assert(base + spec_enc_state_entry_seq(ges.take(0)) =~= base);
        }
        while i < ne
            invariant
                ne == entries@.len(),
                i <= ne,
                ges == entries@.map_values(|p: (String, MapEntry)| (p.0@, p.1@)),
                out@ == base + spec_enc_state_entry_seq(ges.take(i as int)),
                forall|k: int|
                    0 <= k < i ==> encode_utf8(#[trigger] ges[k].0).len() <= u64::MAX
                        && crate::codec::json_bounded(ges[k].1.reg.value),
            decreases ne - i,
        {
            enc_head(&mut out, 4, 4);
            enc_text(&mut out, entries[i].0.as_str());
            let mid = out.len();
            proof {
                assert(encode_utf8(entries@[i as int].0@).len() <= mid);
            }
            enc_json(&mut out, &entries[i].1.value.value);
            enc_ts(&mut out, &entries[i].1.value.timestamp);
            enc_ts(&mut out, &entries[i].1.created_at);
            i += 1;
            proof {
                lemma_enc_state_entry_seq_snoc(ges.take(i - 1), ges[i - 1]);
                assert(ges.take(i as int) =~= ges.take(i - 1).push(ges[i - 1]));
                assert(ges[i - 1] == (entries@[i - 1].0@, entries@[i - 1].1@));
                assert(spec_enc_state_entry(ges[i - 1]) =~= spec_enc_array(4) + spec_enc_text(
                    ges[i - 1].0,
                ) + spec_enc_json(ges[i - 1].1.reg.value) + spec_enc_ts(
                    ges[i - 1].1.reg.timestamp,
                ) + spec_enc_ts(ges[i - 1].1.created_at));
                assert(out@ =~= base + spec_enc_state_entry_seq(ges.take(i as int)));
            }
        }
        proof {
            assert(ges.take(ne as int) =~= ges);
        }
        enc_head(&mut out, 4, tombs.len() as u64);
        let ghost base2 = out@;
        let nt = tombs.len();
        let mut i: usize = 0;
        proof {
            assert(gts.take(0) =~= Seq::<(Seq<char>, Timestamp)>::empty());
            assert(base2 + spec_enc_rem_seq(gts.take(0)) =~= base2);
        }
        while i < nt
            invariant
                nt == tombs@.len(),
                i <= nt,
                gts == tombs@.map_values(|p: (String, Timestamp)| (p.0@, p.1)),
                out@ == base2 + spec_enc_rem_seq(gts.take(i as int)),
                base2 == base + spec_enc_state_entry_seq(ges) + spec_enc_array(nt as u64),
                forall|k: int|
                    0 <= k < i ==> encode_utf8(#[trigger] gts[k].0).len() <= u64::MAX,
            decreases nt - i,
        {
            enc_head(&mut out, 4, 2);
            enc_text(&mut out, tombs[i].0.as_str());
            let mid = out.len();
            proof {
                assert(encode_utf8(tombs@[i as int].0@).len() <= mid);
            }
            enc_ts(&mut out, &tombs[i].1);
            i += 1;
            proof {
                lemma_enc_rem_seq_snoc(gts.take(i - 1), gts[i - 1]);
                assert(gts.take(i as int) =~= gts.take(i - 1).push(gts[i - 1]));
                assert(gts[i - 1] == (tombs@[i - 1].0@, tombs@[i - 1].1));
                assert(spec_enc_rem(gts[i - 1]) =~= spec_enc_array(2) + spec_enc_text(
                    gts[i - 1].0,
                ) + spec_enc_ts(gts[i - 1].1));
                assert(out@ =~= base2 + spec_enc_rem_seq(gts.take(i as int)));
            }
        }
        proof {
            assert(gts.take(nt as int) =~= gts);
            assert(out@ =~= spec_enc_or_map(ges, gts));
            crate::crdt::lemma_inv_or_map_wf(self);
            lemma_entry_rows_link(entries@);
            lemma_tomb_rows_link(tombs@);
            assert forall|a: int, b_: int| 0 <= a < b_ < ges.len() implies ges[a].0
                != ges[b_].0 by {
                assert(entries@[a].0@ != entries@[b_].0@);
            }
            assert forall|a: int, b_: int| 0 <= a < b_ < gts.len() implies gts[a].0
                != gts[b_].0 by {
                assert(tombs@[a].0@ != tombs@[b_].0@);
            }
            assert forall|a: int, b_: int|
                0 <= a < ges.len() && 0 <= b_ < gts.len() && #[trigger] ges[a].0
                    == #[trigger] gts[b_].0 implies crate::hlc::ts_le(
                gts[b_].1,
                ges[a].1.reg.timestamp,
            ) by {
                crate::assoc::lemma_assoc_view_index(entries@, a);
                crate::assoc::lemma_assoc_view_index(tombs@, b_);
            }
            assert(state_rows_valid(ges, gts));
        }
        out
    }

    /// Deserialize a whole state from the wire form: exactly the valid row
    /// listings reconstruct, to the map those rows denote.
    pub fn from_cbor(bytes: &[u8]) -> (r: Option<OrMap>)
        ensures
            r matches Some(m) ==> (spec_dec_or_map_at(bytes@, 0) matches Some(q) && m.inv()
                && m@.entries == entry_rows_map(q.0.0) && m@.tombstones == tomb_rows_map(
                q.0.1,
            )),
            (spec_dec_or_map_at(bytes@, 0) matches Some(q) && state_rows_valid(q.0.0, q.0.1))
                ==> r is Some,
            r is Some ==> (spec_dec_or_map_at(bytes@, 0) matches Some(q) && state_rows_valid(
                q.0.0,
                q.0.1,
            )),
    {
        proof {
            reveal(spec_dec_or_map_at);
        }
        let (m0, two, q0) = match parse_item_head(bytes, 0) {
            Ok(h) => h,
            Err(()) => {
                return None;
            },
        };
        if m0 != 4 || two != 2 {
            return None;
        }
        let (m1, n1, q1) = match parse_item_head(bytes, q0) {
            Ok(h) => h,
            Err(()) => {
                return None;
            },
        };
        if m1 != 4 {
            return None;
        }
        let ghost es_target = spec_dec_state_entry_seq_at(bytes@, q1 as int, n1);
        let mut entries: Vec<(String, MapEntry)> = Vec::new();
        let mut cur = q1;
        let mut remn = n1;
        while remn > 0
            invariant
                0 < cur <= bytes@.len(),
                (match spec_dec_state_entry_seq_at(bytes@, cur as int, remn) {
                    Some((rest, pend)) => es_target == Some::<
                        (Seq<(Seq<char>, EntryView)>, int),
                    >((
                        entries@.map_values(|p: (String, MapEntry)| (p.0@, p.1@)) + rest,
                        pend,
                    )),
                    None => es_target is None,
                }),
            decreases remn,
        {
            let ghost pre = entries@;
            let e = match parse_state_entry(bytes, cur) {
                Ok(e) => e,
                Err(()) => {
                    return None;
                },
            };
            let next = e.2;
            entries.push((e.0, e.1));
            proof {
                let f = |p: (String, MapEntry)| (p.0@, p.1@);
                assert(entries@.map_values(f) =~= pre.map_values(f).push(
                    (entries@.last().0@, entries@.last().1@),
                ));
                assert(match spec_dec_state_entry_seq_at(bytes@, next as int, (remn - 1) as u64) {
                    Some((rest, pend)) => pre.map_values(f) + (seq![
                        (entries@.last().0@, entries@.last().1@),
                    ] + rest) =~= entries@.map_values(f) + rest,
                    None => true,
                });
            }
            cur = next;
            remn = remn - 1;
        }
        proof {
            assert(entries@.map_values(|p: (String, MapEntry)| (p.0@, p.1@)) + Seq::<
                (Seq<char>, EntryView),
            >::empty() =~= entries@.map_values(|p: (String, MapEntry)| (p.0@, p.1@)));
        }
        let (m2, n2, q3) = match parse_item_head(bytes, cur) {
            Ok(h) => h,
            Err(()) => {
                return None;
            },
        };
        if m2 != 4 {
            return None;
        }
        let ghost ts_target = spec_dec_rem_seq_at(bytes@, q3 as int, n2);
        let mut tombs: Vec<(String, Timestamp)> = Vec::new();
        let mut cur2 = q3;
        let mut remn2 = n2;
        while remn2 > 0
            invariant
                0 < cur2 <= bytes@.len(),
                (match spec_dec_rem_seq_at(bytes@, cur2 as int, remn2) {
                    Some((rest, pend)) => ts_target == Some::<
                        (Seq<(Seq<char>, Timestamp)>, int),
                    >((tombs@.map_values(|p: (String, Timestamp)| (p.0@, p.1)) + rest, pend)),
                    None => ts_target is None,
                }),
            decreases remn2,
        {
            let ghost pre = tombs@;
            let e = match parse_rem(bytes, cur2) {
                Ok(e) => e,
                Err(()) => {
                    return None;
                },
            };
            let next = e.2;
            tombs.push((e.0, e.1));
            proof {
                let f = |p: (String, Timestamp)| (p.0@, p.1);
                assert(tombs@.map_values(f) =~= pre.map_values(f).push(
                    (tombs@.last().0@, tombs@.last().1),
                ));
                assert(match spec_dec_rem_seq_at(bytes@, next as int, (remn2 - 1) as u64) {
                    Some((rest, pend)) => pre.map_values(f) + (seq![
                        (tombs@.last().0@, tombs@.last().1),
                    ] + rest) =~= tombs@.map_values(f) + rest,
                    None => true,
                });
            }
            cur2 = next;
            remn2 = remn2 - 1;
        }
        proof {
            assert(tombs@.map_values(|p: (String, Timestamp)| (p.0@, p.1)) + Seq::<
                (Seq<char>, Timestamp),
            >::empty() =~= tombs@.map_values(|p: (String, Timestamp)| (p.0@, p.1)));
        }
        let ghost ges = entries@.map_values(|p: (String, MapEntry)| (p.0@, p.1@));
        let ghost gts = tombs@.map_values(|p: (String, Timestamp)| (p.0@, p.1));
        proof {
            lemma_entry_rows_link(entries@);
            lemma_tomb_rows_link(tombs@);
            if state_rows_valid(ges, gts) {
                assert forall|a: int, b_: int|
                    0 <= a < b_ < entries@.len() implies entries@[a].0@ != entries@[b_].0@ by {
                    assert(ges[a].0 != ges[b_].0);
                }
                assert forall|a: int, b_: int|
                    0 <= a < b_ < tombs@.len() implies tombs@[a].0@ != tombs@[b_].0@ by {
                    assert(gts[a].0 != gts[b_].0);
                }
                assert forall|k: Seq<char>|
                    #[trigger] crate::assoc::assoc_view(entries@).contains_key(k)
                        && #[trigger] crate::assoc::assoc_view(tombs@).contains_key(k) implies
                    crate::hlc::ts_le(
                    crate::assoc::assoc_view(tombs@)[k],
                    crate::assoc::assoc_view(entries@)[k].reg.timestamp,
                ) by {
                    crate::assoc::lemma_assoc_view_contains(entries@, k);
                    crate::assoc::lemma_assoc_view_contains(tombs@, k);
                    let a = choose|a: int|
                        0 <= a < entries@.len() && #[trigger] entries@[a].0@ == k;
                    let b_ = choose|b_: int|
                        0 <= b_ < tombs@.len() && #[trigger] tombs@[b_].0@ == k;
                    crate::assoc::lemma_assoc_view_index(entries@, a);
                    crate::assoc::lemma_assoc_view_index(tombs@, b_);
                    assert(ges[a].0 == gts[b_].0);
                }
            }
        }
        let r = OrMap::from_rows(entries, tombs);
        proof {
            if r is Some {
                assert forall|a: int, b_: int| 0 <= a < b_ < ges.len() implies ges[a].0
                    != ges[b_].0 by {
                    assert(entries@[a].0@ != entries@[b_].0@);
                }
                assert forall|a: int, b_: int| 0 <= a < b_ < gts.len() implies gts[a].0
                    != gts[b_].0 by {
                    assert(tombs@[a].0@ != tombs@[b_].0@);
                }
                assert forall|a: int, b_: int|
                    0 <= a < ges.len() && 0 <= b_ < gts.len() && #[trigger] ges[a].0
                        == #[trigger] gts[b_].0 implies crate::hlc::ts_le(
                    gts[b_].1,
                    ges[a].1.reg.timestamp,
                ) by {
                    crate::assoc::lemma_assoc_view_index(entries@, a);
                    crate::assoc::lemma_assoc_view_index(tombs@, b_);
                    assert(crate::assoc::assoc_view(entries@).contains_key(ges[a].0));
                    assert(crate::assoc::assoc_view(tombs@).contains_key(gts[b_].0));
                }
                assert(state_rows_valid(ges, gts));
            }
        }
        r
    }
}

/// Parse one state row.
fn parse_state_entry(bytes: &[u8], pos: usize) -> (r: Result<(String, MapEntry, usize), ()>)
    ensures
        r matches Ok(e) ==> spec_dec_state_entry_at(bytes@, pos as int) == Some(
            ((e.0@, e.1@), e.2 as int),
        ) && pos < e.2 <= bytes@.len(),
        r is Err ==> spec_dec_state_entry_at(bytes@, pos as int) is None,
{
    let (m, n, p) = match parse_item_head(bytes, pos) {
        Ok(h) => h,
        Err(()) => {
            return Err(());
        },
    };
    if m != 4 || n != 4 {
        return Err(());
    }
    let (k, p1) = match parse_text_item(bytes, p) {
        Ok(x) => x,
        Err(()) => {
            return Err(());
        },
    };
    let (v, p2) = match parse_json_item(bytes, p1) {
        Ok(x) => x,
        Err(()) => {
            return Err(());
        },
    };
    let (wt, p3) = match parse_ts(bytes, p2) {
        Ok(x) => x,
        Err(()) => {
            return Err(());
        },
    };
    let (ct, p4) = match parse_ts(bytes, p3) {
        Ok(x) => x,
        Err(()) => {
            return Err(());
        },
    };
    Ok((k, MapEntry { value: LwwRegister { value: v, timestamp: wt }, created_at: ct }, p4))
}

} // verus!
