//! The agent's state transitions: per-document replica state, the ingress
//! mapping from broker events to deltas, and the handlers that turn each
//! bus message into state changes and follow-up actions. The surrounding
//! process runs the event loop and performs the bus, HTTP and storage work
//! these transitions call for.

use vstd::prelude::*;
use vstd::string::StringExecFns;
use crate::bytes_be::{spec_u64_from_be_bytes, u64_from_be_bytes};
use crate::crdt::{
    delta_apply, lemma_delta_apply_keeps_stamps, lemma_stamps_monotone, stamps_at_or_below,
    Delta, OrMap, OrMapView,
};
use crate::events::{BasyxEvent, EventType};
use crate::hlc::{ts_ceiling, ts_le, ts_lt, Hlc, Timestamp};
use crate::log::DeltaLog;
use crate::assoc::{lemma_assoc_view_contains, lemma_assoc_view_index};
use crate::messages::{
    entry_rows_map, spec_dec_ae_request_at, spec_dec_ae_response_at, spec_dec_delta_at,
    spec_dec_doc_delta_at, spec_dec_or_map_at, state_rows_valid, tomb_rows_map,
    AntiEntropyRequest, AntiEntropyResponse, DocDelta, DocDeltaView,
};

verus! {

/// One document's replica state: its map and the clock stamping local
/// edits.
#[derive(Debug)]
pub struct DocumentState {
    /// The observed-remove map holding the document's live values
    pub state: OrMap,
    /// The clock stamping and observing this document's changes
    pub clock: Hlc,
}

impl DocumentState {
    /// The state's representation invariant: the map is well-formed and
    /// the clock has observed every stamp the map holds, short of stamps
    /// at the representation ceiling.
    pub open spec fn wf(&self) -> bool {
        self.state.inv() && stamps_at_or_below(self.state@, self.clock.spec_last())
    }

    /// A fresh empty document state for this actor.
    pub fn new(actor_id: u128) -> (r: DocumentState)
        ensures
            r.wf(),
            r.state@.entries == Map::<Seq<char>, crate::crdt::EntryView>::empty(),
            r.state@.tombstones == Map::<Seq<char>, Timestamp>::empty(),
            r.clock.spec_last().actor_id == actor_id,
    {
        let r = DocumentState { state: OrMap::new(), clock: Hlc::new(actor_id) };
        proof {
            assert(stamps_at_or_below(r.state@, r.clock.spec_last()));
        }
        r
    }

    /// Apply a replicated delta: the clock observes every stamp it
    /// carries — ending strictly past each one short of the representation
    /// ceiling — then the delta replays on the map.
    pub fn apply_delta(&mut self, delta: &Delta)
        requires
            old(self).wf(),
        ensures
            final(self).wf(),
            final(self).state@ == delta_apply(delta@, old(self).state@),
            ts_le(old(self).clock.spec_last(), final(self).clock.spec_last()),
            forall|k: int|
                0 <= k < delta@.inserts.len() && !ts_ceiling(#[trigger] delta@.inserts[k].2)
                    ==> ts_lt(delta@.inserts[k].2, final(self).clock.spec_last()),
            forall|k: int|
                0 <= k < delta@.removes.len() && !ts_ceiling(#[trigger] delta@.removes[k].1)
                    ==> ts_lt(delta@.removes[k].1, final(self).clock.spec_last()),
    {
        let ni = delta.inserts.len();
        let mut i: usize = 0;
        while i < ni
            invariant
                ni == delta.inserts@.len(),
                i <= ni,
                ts_le(old(self).clock.spec_last(), self.clock.spec_last()),
                forall|k: int|
                    0 <= k < i && !ts_ceiling(#[trigger] delta@.inserts[k].2) ==> ts_lt(
                        delta@.inserts[k].2,
                        self.clock.spec_last(),
                    ),
                self.state == old(self).state,
            decreases ni - i,
        {
            self.clock.update(delta.inserts[i].2);
            i += 1;
        }
        let nr = delta.removes.len();
        let mut i: usize = 0;
        while i < nr
            invariant
                nr == delta.removes@.len(),
                i <= nr,
                ts_le(old(self).clock.spec_last(), self.clock.spec_last()),
                forall|k: int|
                    0 <= k < ni && !ts_ceiling(#[trigger] delta@.inserts[k].2) ==> ts_lt(
                        delta@.inserts[k].2,
                        self.clock.spec_last(),
                    ),
                forall|k: int|
                    0 <= k < i && !ts_ceiling(#[trigger] delta@.removes[k].1) ==> ts_lt(
                        delta@.removes[k].1,
                        self.clock.spec_last(),
                    ),
                self.state == old(self).state,
            decreases nr - i,
        {
            self.clock.update(delta.removes[i].1);
            i += 1;
        }
        proof {
            lemma_stamps_monotone(
                old(self).state@,
                old(self).clock.spec_last(),
                self.clock.spec_last(),
            );
            lemma_delta_apply_keeps_stamps(delta@, old(self).state@, self.clock.spec_last());
        }
        delta.apply_to(&mut self.state);
    }
}

/// What an ingress event becomes: a write, a removal, or nothing.
#[derive(Debug, Clone, Copy, PartialEq, Eq, Structural)]
pub enum IngressAction {
    /// The event writes a value
    Insert,
    /// The event removes a key
    Remove,
    /// The event changes nothing
    Ignore,
}

/// The ingress mapping: created, updated and patched events write, deleted
/// events remove; events carrying no value and no element are ignored.
pub open spec fn spec_ingress_action(t: EventType, has_value: bool) -> IngressAction {
    match t {
        EventType::Created => if has_value {
            IngressAction::Insert
        } else {
            IngressAction::Ignore
        },
        EventType::Updated => if has_value {
            IngressAction::Insert
        } else {
            IngressAction::Ignore
        },
        EventType::Patched => if has_value {
            IngressAction::Insert
        } else {
            IngressAction::Ignore
        },
        EventType::Deleted => IngressAction::Remove,
    }
}

/// The canonical map key of an element event's path: the slash-separated
/// wire path with dots instead.
pub open spec fn spec_event_key(p: Seq<char>) -> Seq<char> {
    p.map_values(|c: char| if c == '/' { '.' } else { c })
}

/// Convert a broker event to a delta under fresh local stamps: creates,
/// updates and patches with a value become one insert at the event's
/// canonical path, deletes become one removal, and anything else — no
/// element, or no value to write — an empty delta.
pub fn basyx_event_to_delta(event: &BasyxEvent, clock: &mut Hlc) -> (r: Delta)
    ensures
        ts_le(old(clock).spec_last(), final(clock).spec_last()),
        ({
            let act = match event@.element {
                Some(el) => spec_ingress_action(event@.event_type, el.value is Some),
                None => IngressAction::Ignore,
            };
            &&& (act is Ignore ==> r@.inserts.len() == 0 && r@.removes.len() == 0)
            &&& (act is Insert ==> r@.inserts.len() == 1 && r@.removes.len() == 0
                && r@.inserts[0].0 == spec_event_key(event@.element->0.id_short_path)
                && r@.inserts[0].1 == event@.element->0.value->0
                && r@.inserts[0].2 == final(clock).spec_last()
                && (!ts_ceiling(old(clock).spec_last()) ==> ts_lt(
                old(clock).spec_last(),
                final(clock).spec_last(),
            )))
            &&& (act is Remove ==> r@.removes.len() == 1 && r@.inserts.len() == 0
                && r@.removes[0].0 == spec_event_key(event@.element->0.id_short_path)
                && r@.removes[0].1 == final(clock).spec_last())
        }),
{
    let mut delta = Delta::new();
    match &event.element {
        Some(element) => {
            let path = slashes_to_dots(element.id_short_path.as_str());
            match event.event_type {
                EventType::Created | EventType::Updated | EventType::Patched => {
                    match &element.value {
                        Some(value) => {
                            let ts = clock.tick();
                            delta.add_insert(path, value.clone(), ts);
                            proof {
                                assert(delta@.inserts =~= Seq::<
                                    (Seq<char>, crate::json::JsonView, Timestamp),
                                >::empty().push((path@, value@, ts)));
                            }
                        },
                        None => {},
                    }
                },
                EventType::Deleted => {
                    let ts = clock.tick();
                    delta.add_remove(path, ts);
                    proof {
                        assert(delta@.removes =~= Seq::<(Seq<char>, Timestamp)>::empty().push(
                            (path@, ts),
                        ));
                    }
                },
            }
        },
        None => {},
    }
    delta
}

/// Replace the wire path's slashes with the canonical dots.
fn slashes_to_dots(s: &str) -> (r: String)
    ensures
        r@ == spec_event_key(s@),
{
    let chars = crate::strutil::str_to_chars(s);
    let n = chars.len();
    let mut out = String::new();
    let mut i: usize = 0;
    proof {
        reveal_strlit(".");
        assert(out@ =~= spec_event_key(s@.take(0)));
    }
    while i < n
        invariant
            n == chars@.len(),
            chars@ == s@,
            i <= n,
            out@ == spec_event_key(s@.take(i as int)),
        decreases n - i,
    {
        if chars[i] == '/' {
            out.append(".");
        } else {
            let one = crate::strutil::char_to_string(chars[i]);
            out.append(one.as_str());
        }
        i += 1;
        proof {
            reveal_strlit(".");
            assert(spec_event_key(s@.take(i as int)) =~= spec_event_key(s@.take(i - 1)).push(
                if s@[i - 1] == '/' {
                    '.'
                } else {
                    s@[i - 1]
                },
            ));
            assert(out@ =~= spec_event_key(s@.take(i as int)));
        }
    }
    proof {
        assert(s@.take(n as int) =~= s@);
    }
    out
}

/// Errors of message handling: each names the stage that failed.
#[derive(Debug, Clone, Copy, PartialEq, Eq, Structural)]
pub enum ProtocolError {
    /// The envelope did not decode
    DecodeMessage,
    /// The delta payload inside the envelope did not decode
    DecodePayload,
}

/// What handling an incoming delta message decided.
#[derive(Debug)]
pub struct DeltaOutcome {
    /// The decoded envelope, for persistence and acknowledgement
    pub doc_delta: DocDelta,
    /// The decoded delta, whose inserts egress PATCHes one by one;
    /// removals deliberately stay local
    pub delta: Delta,
}

/// Handle a delta message: decode the envelope, decode its payload, apply
/// it to the document, and hand back what to persist and what egress
/// writes. A message that does not decode is dropped with the stage named;
/// the state is then untouched.
pub fn handle_delta_message(doc: &mut DocumentState, payload: &[u8]) -> (r: Result<
    DeltaOutcome,
    ProtocolError,
>)
    requires
        old(doc).wf(),
    ensures
        final(doc).wf(),
        ({
            let dd = spec_dec_doc_delta_at(payload@, 0);
            &&& (r matches Err(e) && e is DecodeMessage <==> dd is None)
            &&& (r matches Err(e) && e is DecodePayload ==> dd is Some && spec_dec_delta_at(
                (dd->0).0.delta_payload,
                0,
            ) is None)
            &&& (r is Err ==> *final(doc) == *old(doc))
            &&& (r matches Ok(out) ==> (dd matches Some(q) && out.doc_delta@ == q.0
                && (spec_dec_delta_at(q.0.delta_payload, 0) matches Some(pd) && out.delta@
                == pd.0 && final(doc).state@ == delta_apply(pd.0, old(doc).state@)) && ts_le(
                old(doc).clock.spec_last(),
                final(doc).clock.spec_last(),
            )))
        }),
{
    let doc_delta = match DocDelta::from_cbor(payload) {
        Ok(d) => d,
        Err(_) => {
            return Err(ProtocolError::DecodeMessage);
        },
    };
    let delta = match Delta::from_cbor(doc_delta.delta_payload.as_slice()) {
        Ok(d) => d,
        Err(_) => {
            return Err(ProtocolError::DecodePayload);
        },
    };
    doc.apply_delta(&delta);
    Ok(DeltaOutcome { doc_delta, delta })
}

/// Whether a delta message's envelope names the document the topic's shard
/// hash says it should; a mismatch is worth a warning, but the delta still
/// applies.
pub fn delta_hash_matches(doc_delta: &DocDelta, topic_hash: &str) -> (r: bool)
    ensures
        r == (crate::document::spec_hex16(
            crate::document::spec_fnv1a(vstd::utf8::encode_utf8(doc_delta@.doc_id)),
        ) == topic_hash@),
{
    let expected = crate::document::hash_doc_id(doc_delta.doc_id.as_str());
    crate::strutil::str_eq(expected.as_str(), topic_hash)
}

/// The physical-time threshold a have-summary carries: its first eight
/// bytes big-endian, or zero when it is shorter.
pub open spec fn spec_summary_threshold(b: Seq<u8>) -> u64 {
    if b.len() >= 8 {
        spec_u64_from_be_bytes(b.subrange(0, 8))
    } else {
        0
    }
}

/// Handle an anti-entropy request: read the requester's threshold, collect
/// the stored payloads past it, and answer with the ones that decode as
/// delta envelopes, in ascending stamp order. No stored payload past the
/// threshold means no response.
pub fn handle_ae_request(log: &DeltaLog, payload: &[u8]) -> (r: Result<
    Option<AntiEntropyResponse>,
    ProtocolError,
>)
    requires
        log.inv(),
    ensures
        ({
            let rq = spec_dec_ae_request_at(payload@, 0);
            &&& (r is Err <==> rq is None)
            &&& (r matches Ok(out) ==> rq matches Some(q) && {
                let payloads = crate::log::deltas_after(
                    log.rows_view(),
                    q.0.doc_id,
                    spec_summary_threshold(q.0.have_summary),
                );
                &&& (out is None <==> payloads.len() == 0)
                &&& (out matches Some(resp) ==> resp@.doc_id == q.0.doc_id && resp@.snapshot
                    is None && resp@.deltas == spec_decode_envelopes(payloads))
            })
        }),
{
    let request = match AntiEntropyRequest::from_cbor(payload) {
        Ok(rq) => rq,
        Err(_) => {
            return Err(ProtocolError::DecodeMessage);
        },
    };
    let after_ts: u64 = if request.have_summary.len() >= 8 {
        let t = u64_from_be_bytes(&request.have_summary.as_slice()[0..8]);
        proof {
            crate::bytes_be::lemma_u64_be_from_to();
        }
        t
    } else {
        0
    };
    let payloads = log.get_deltas_after(request.doc_id.as_str(), after_ts);
    if payloads.is_empty() {
        proof {
            assert(payloads@.map_values(|p: Vec<u8>| p@).len() == 0);
        }
        return Ok(None);
    }
    let ghost gpayloads = payloads@.map_values(|p: Vec<u8>| p@);
    let n = payloads.len();
    let mut deltas: Vec<DocDelta> = Vec::new();
    let mut i: usize = 0;
    proof {
        assert(deltas@.map_values(|d: DocDelta| d@) =~= spec_decode_envelopes(gpayloads.take(0)));
    }
    while i < n
        invariant
            n == payloads@.len(),
            gpayloads == payloads@.map_values(|p: Vec<u8>| p@),
            i <= n,
            deltas@.map_values(|d: DocDelta| d@) == spec_decode_envelopes(
                gpayloads.take(i as int),
            ),
        decreases n - i,
    {
        let ghost pre = deltas@;
        match DocDelta::from_cbor(payloads[i].as_slice()) {
            Ok(d) => {
                deltas.push(d);
            },
            Err(_) => {},
        }
        i += 1;
        proof {
            lemma_decode_envelopes_snoc(gpayloads.take(i - 1), gpayloads[i - 1]);
            assert(gpayloads.take(i as int) =~= gpayloads.take(i - 1).push(gpayloads[i - 1]));
            assert(deltas@.map_values(|d: DocDelta| d@) =~= spec_decode_envelopes(
                gpayloads.take(i as int),
            ));
        }
    }
    proof {
        assert(gpayloads.take(n as int) =~= gpayloads);
    }
    Ok(Some(AntiEntropyResponse::with_deltas(request.doc_id, deltas)))
}

/// The stored payloads that decode as delta envelopes, in order.
pub open spec fn spec_decode_envelopes(ps: Seq<Seq<u8>>) -> Seq<DocDeltaView>
    decreases ps.len(),
{
    if ps.len() == 0 {
        Seq::empty()
    } else {
        let rest = spec_decode_envelopes(ps.drop_last());
        match spec_dec_doc_delta_at(ps.last(), 0) {
            Some((d, _)) => rest.push(d),
            None => rest,
        }
    }
}

proof fn lemma_decode_envelopes_snoc(ps: Seq<Seq<u8>>, x: Seq<u8>)
    ensures
        spec_decode_envelopes(ps.push(x)) == (match spec_dec_doc_delta_at(x, 0) {
            Some((d, _)) => spec_decode_envelopes(ps).push(d),
            None => spec_decode_envelopes(ps),
        }),
{
    assert(ps.push(x).drop_last() =~= ps);
    assert(ps.push(x).last() == x);
}

/// The envelopes among a response's deltas whose payload decodes, in
/// order: exactly the ones a replica applies and persists.
pub open spec fn decodable_envelopes(ds: Seq<DocDeltaView>) -> Seq<DocDeltaView>
    decreases ds.len(),
{
    if ds.len() == 0 {
        Seq::empty()
    } else {
        let rest = decodable_envelopes(ds.drop_last());
        if spec_dec_delta_at(ds.last().delta_payload, 0) is Some {
            rest.push(ds.last())
        } else {
            rest
        }
    }
}

/// The state a response's deltas leave a map in: each envelope whose
/// payload decodes replays in order; the rest are skipped.
pub open spec fn apply_doc_deltas(m: OrMapView, ds: Seq<DocDeltaView>) -> OrMapView
    decreases ds.len(),
{
    if ds.len() == 0 {
        m
    } else {
        let m1 = apply_doc_deltas(m, ds.drop_last());
        match spec_dec_delta_at(ds.last().delta_payload, 0) {
            Some((dv, _)) => delta_apply(dv, m1),
            None => m1,
        }
    }
}

/// Whether a response's snapshot, if any, decodes to rows the map
/// invariant accepts.
pub open spec fn spec_snapshot_ok(snapshot: Option<Seq<u8>>) -> bool {
    match snapshot {
        Some(b) => match spec_dec_or_map_at(b, 0) {
            Some(q) => state_rows_valid((q.0).0, (q.0).1),
            None => false,
        },
        None => false,
    }
}

/// The base state an anti-entropy response establishes before its deltas
/// replay: a carried snapshot that decodes to valid rows replaces the map
/// wholesale; otherwise the replica keeps its own state.
pub open spec fn spec_ae_base(m: OrMapView, snapshot: Option<Seq<u8>>) -> OrMapView {
    if spec_snapshot_ok(snapshot) {
        let q = spec_dec_or_map_at(snapshot->Some_0, 0)->Some_0;
        OrMapView { entries: entry_rows_map((q.0).0), tombstones: tomb_rows_map((q.0).1) }
    } else {
        m
    }
}

/// What handling an anti-entropy response decided.
#[derive(Debug)]
pub struct AeOutcome {
    /// The decoded envelopes that applied, for persistence
    pub applied: Vec<DocDelta>,
    /// Whether the response carried a snapshot
    pub snapshot_present: bool,
    /// Whether a carried snapshot decoded to a valid state and replaced
    /// this replica's map before the deltas replayed
    pub snapshot_applied: bool,
}

/// Handle an anti-entropy response: a carried snapshot that decodes to a
/// valid state replaces this replica's map wholesale — after the clock
/// observes every stamp the new state holds — and then every carried
/// delta whose payload decodes replays in order, each reported as applied
/// for persistence.
pub fn handle_ae_response(doc: &mut DocumentState, payload: &[u8]) -> (r: Result<
    AeOutcome,
    ProtocolError,
>)
    requires
        old(doc).wf(),
    ensures
        final(doc).wf(),
        ({
            let rp = spec_dec_ae_response_at(payload@, 0);
            &&& (r is Err <==> rp is None)
            &&& (r is Err ==> *final(doc) == *old(doc))
            &&& (r matches Ok(out) ==> rp matches Some(q) && final(doc).state@ == apply_doc_deltas(
                spec_ae_base(old(doc).state@, q.0.snapshot),
                q.0.deltas,
            ) && out.applied@.map_values(|d: DocDelta| d@) == decodable_envelopes(q.0.deltas)
                && out.snapshot_present == (q.0.snapshot is Some) && out.snapshot_applied
                == spec_snapshot_ok(q.0.snapshot) && ts_le(
                old(doc).clock.spec_last(),
                final(doc).clock.spec_last(),
            ))
        }),
{
    let response = match AntiEntropyResponse::from_cbor(payload) {
        Ok(rp) => rp,
        Err(_) => {
            return Err(ProtocolError::DecodeMessage);
        },
    };
    let ghost gsnap: Option<Seq<u8>> = response@.snapshot;
    let snapshot_present = match &response.snapshot {
        Some(_) => true,
        None => false,
    };
    let mut snapshot_applied = false;
    match &response.snapshot {
        Some(bytes) => {
            match OrMap::from_cbor(bytes.as_slice()) {
                Some(m) => {
                    // the clock observes every stamp the snapshot carries,
                    // restoring dominance before the state is installed
                    let rows = m.entry_rows();
                    let nr = rows.len();
                    let mut i: usize = 0;
                    while i < nr
                        invariant
                            nr == rows@.len(),
                            i <= nr,
                            ts_le(old(doc).clock.spec_last(), doc.clock.spec_last()),
                            forall|k: int|
                                0 <= k < i && !ts_ceiling(
                                    #[trigger] rows@[k].1@.reg.timestamp,
                                ) ==> ts_lt(rows@[k].1@.reg.timestamp, doc.clock.spec_last()),
                            doc.state == old(doc).state,
                        decreases nr - i,
                    {
                        doc.clock.update(rows[i].1.value.timestamp);
                        i += 1;
                    }
                    let trows = m.tombstone_rows();
                    let nt = trows.len();
                    let mut i: usize = 0;
                    while i < nt
                        invariant
                            nt == trows@.len(),
                            i <= nt,
                            ts_le(old(doc).clock.spec_last(), doc.clock.spec_last()),
                            forall|k: int|
                                0 <= k < nr && !ts_ceiling(
                                    #[trigger] rows@[k].1@.reg.timestamp,
                                ) ==> ts_lt(rows@[k].1@.reg.timestamp, doc.clock.spec_last()),
                            forall|k: int|
                                0 <= k < i && !ts_ceiling(#[trigger] trows@[k].1) ==> ts_lt(
                                    trows@[k].1,
                                    doc.clock.spec_last(),
                                ),
                            doc.state == old(doc).state,
                        decreases nt - i,
                    {
                        doc.clock.update(trows[i].1);
                        i += 1;
                    }
                    proof {
                        assert forall|k: Seq<char>|
                            #[trigger] m@.entries.contains_key(k) implies ts_le(
                            m@.entries[k].reg.timestamp,
                            doc.clock.spec_last(),
                        ) || ts_ceiling(m@.entries[k].reg.timestamp) by {
                            lemma_assoc_view_contains(rows@, k);
                            let idx = choose|idx: int|
                                0 <= idx < rows@.len() && #[trigger] rows@[idx].0@ == k;
                            lemma_assoc_view_index(rows@, idx);
                        }
                        assert forall|k: Seq<char>|
                            #[trigger] m@.tombstones.contains_key(k) implies ts_le(
                            m@.tombstones[k],
                            doc.clock.spec_last(),
                        ) || ts_ceiling(m@.tombstones[k]) by {
                            lemma_assoc_view_contains(trows@, k);
                            let idx = choose|idx: int|
                                0 <= idx < trows@.len() && #[trigger] trows@[idx].0@ == k;
                            lemma_assoc_view_index(trows@, idx);
                        }
                        assert(stamps_at_or_below(m@, doc.clock.spec_last()));
                    }
                    proof {
                        let q = spec_dec_or_map_at(bytes@, 0)->Some_0;
                        assert(spec_snapshot_ok(gsnap));
                        assert(m@ =~= spec_ae_base(old(doc).state@, gsnap));
                    }
                    doc.state = m;
                    snapshot_applied = true;
                },
                None => {
                    proof {
                        assert(!spec_snapshot_ok(gsnap));
                    }
                },
            }
        },
        None => {},
    }
    let ghost base = doc.state@;
    proof {
        assert(base == spec_ae_base(old(doc).state@, gsnap));
        assert(snapshot_applied == spec_snapshot_ok(gsnap));
        assert(doc.wf());
    }
    let ghost gdeltas = response.deltas@.map_values(|d: DocDelta| d@);
    let n = response.deltas.len();
    let mut applied: Vec<DocDelta> = Vec::new();
    let mut i: usize = 0;
    proof {
        assert(doc.state@ =~= apply_doc_deltas(base, gdeltas.take(0)));
    }
    while i < n
        invariant
            n == response.deltas@.len(),
            gdeltas == response.deltas@.map_values(|d: DocDelta| d@),
            doc.wf(),
            doc.state@ == apply_doc_deltas(base, gdeltas.take(i as int)),
            applied@.map_values(|d: DocDelta| d@) == decodable_envelopes(gdeltas.take(i as int)),
            ts_le(old(doc).clock.spec_last(), doc.clock.spec_last()),
            i <= n,
        decreases n - i,
    {
        let ghost pre_applied = applied@;
        match Delta::from_cbor(response.deltas[i].delta_payload.as_slice()) {
            Ok(delta) => {
                doc.apply_delta(&delta);
                applied.push(response.deltas[i].clone());
            },
            Err(_) => {},
        }
        i += 1;
        proof {
            assert(gdeltas.take(i as int).drop_last() =~= gdeltas.take(i - 1));
            assert(gdeltas.take(i as int).last() == gdeltas[i - 1]);
            assert(applied@.map_values(|d: DocDelta| d@) =~= (
            if spec_dec_delta_at(gdeltas[i - 1].delta_payload, 0) is Some {
                pre_applied.map_values(|d: DocDelta| d@).push(gdeltas[i - 1])
            } else {
                pre_applied.map_values(|d: DocDelta| d@)
            }));
        }
    }
    proof {
        assert(gdeltas.take(n as int) =~= gdeltas);
    }
    Ok(AeOutcome { applied, snapshot_present, snapshot_applied })
}

/// The log row a delta envelope persists as: the envelope's whole wire
/// form under its (doc_id, delta_id) key, with the stamping actor rendered
/// in decimal and the stamp's physical time.
pub open spec fn spec_persist_row(d: crate::messages::DocDeltaView, timestamp: Timestamp)
    -> crate::log::DeltaRowView {
    crate::log::DeltaRowView {
        doc_id: d.doc_id,
        delta_id: d.delta_id,
        delta_bytes: crate::messages::spec_enc_doc_delta(d),
        actor_id: crate::diff::spec_udec128(timestamp.actor_id),
        hlc_ts: timestamp.physical_ms,
    }
}

/// Persist a delta envelope: the log gains exactly one row holding the
/// envelope's whole wire form — so a catch-up exchange can resend it as
/// received — replacing any row with the same (doc_id, delta_id) key at
/// the stamp's ascending position. A stamp past the signed storage range
/// fails the save and changes nothing.
pub fn persist_delta(log: &mut DeltaLog, doc_delta: &DocDelta, timestamp: Timestamp) -> (r: Result<
    (),
    crate::log::LogError,
>)
    requires
        old(log).inv(),
    ensures
        final(log).inv(),
        timestamp.physical_ms > i64::MAX as u64 ==> r is Err && *final(log) == *old(log),
        timestamp.physical_ms <= i64::MAX as u64 ==> r is Ok && final(log).rows_view() == ({
            let row = spec_persist_row(doc_delta@, timestamp);
            let cleaned = crate::log::remove_key(old(log).rows_view(), row);
            cleaned.insert(
                crate::log::first_above(cleaned, timestamp.physical_ms),
                row,
            )
        }),
        final(log).snapshots_view() == old(log).snapshots_view(),
        final(log).progress_view() == old(log).progress_view(),
{
    let envelope = match doc_delta.to_cbor() {
        Ok(b) => b,
        Err(_) => {
            proof {
                assert(false);
            }
            Vec::new()
        },
    };
    let row = crate::log::DeltaRow {
        doc_id: doc_delta.doc_id.clone(),
        delta_id: doc_delta.delta_id.clone(),
        delta_bytes: envelope,
        actor_id: crate::diff::u128_to_dec(timestamp.actor_id),
        hlc_ts: timestamp.physical_ms,
    };
    proof {
        assert(row@ =~= spec_persist_row(doc_delta@, timestamp));
    }
    log.save_delta(row)
}

/// Configuration of the whole agent.
#[derive(Debug, PartialEq, Eq)]
pub struct AgentConfig {
    /// Agent identifier, if pinned by configuration
    pub agent_id: Option<u128>,
    /// Adapter configuration
    pub adapter: AdapterConfig,
    /// Replication configuration
    pub replication: ReplicationConfig,
    /// Persistence configuration
    pub persistence: PersistenceConfig,
    /// Subscriptions to synchronize
    pub subscriptions: Vec<SubscriptionConfig>,
}

/// Configuration of the ingress adapter.
#[derive(Debug, PartialEq, Eq)]
pub struct AdapterConfig {
    /// Which adapter feeds ingress
    pub adapter_type: String,
    /// AAS repository URL, if one is used
    pub aas_repo_url: Option<String>,
    /// Submodel repository URL
    pub sm_repo_url: String,
    /// Broker URL for event ingestion
    pub mqtt_broker: Option<String>,
    /// Bearer token for the repository
    pub bearer_token: Option<String>,
    /// Poll interval in milliseconds, for the polling adapter
    pub poll_interval_ms: u64,
}

/// Configuration of replication.
#[derive(Debug, PartialEq, Eq)]
pub struct ReplicationConfig {
    /// Broker URL for delta replication
    pub mqtt_broker: String,
    /// Tenant identifier
    pub tenant: String,
    /// Whether converged values write back to the repository
    pub enable_egress: bool,
}

/// Configuration of persistence.
#[derive(Debug, PartialEq, Eq)]
pub struct PersistenceConfig {
    /// Which store persists the log
    pub store_type: String,
    /// Database path, for the file-backed store
    pub db_path: String,
    /// Compaction interval in milliseconds
    pub compaction_interval_ms: u64,
}

/// One document subscription.
#[derive(Debug, PartialEq, Eq)]
pub struct SubscriptionConfig {
    /// AAS identifier
    pub aas_id: String,
    /// Submodel identifier
    pub submodel_id: String,
}

impl Clone for SubscriptionConfig {
    fn clone(&self) -> (r: Self)
        ensures
            r.aas_id@ == self.aas_id@,
            r.submodel_id@ == self.submodel_id@,
    {
        SubscriptionConfig {
            aas_id: self.aas_id.clone(),
            submodel_id: self.submodel_id.clone(),
        }
    }
}

impl Default for AgentConfig {
    /// Local single-node defaults: broker event ingestion, local
    /// repositories and broker, file-backed persistence, no egress.
    fn default() -> (r: AgentConfig)
        ensures
            r.agent_id is None,
            r.adapter.adapter_type@ == "basyx"@,
            r.adapter.sm_repo_url@ == "http://localhost:8082"@,
            r.replication.tenant@ == "default"@,
            r.replication.enable_egress == false,
            r.persistence.store_type@ == "sqlite"@,
            r.subscriptions@.len() == 0,
    {
        AgentConfig {
            agent_id: None,
            adapter: AdapterConfig {
                adapter_type: String::from_str("basyx"),
                aas_repo_url: Some(String::from_str("http://localhost:8081")),
                sm_repo_url: String::from_str("http://localhost:8082"),
                mqtt_broker: Some(String::from_str("tcp://localhost:1883")),
                bearer_token: None,
                poll_interval_ms: 5000,
            },
            replication: ReplicationConfig {
                mqtt_broker: String::from_str("tcp://localhost:1883"),
                tenant: String::from_str("default"),
                enable_egress: false,
            },
            persistence: PersistenceConfig {
                store_type: String::from_str("sqlite"),
                db_path: String::from_str("./deltasync.db"),
                compaction_interval_ms: 3600000,
            },
            subscriptions: Vec::new(),
        }
    }
}

/// Configuration of the broker event subscriber.
#[derive(Debug, PartialEq, Eq)]
pub struct BasyxSubscriberConfig {
    /// Broker URL
    pub mqtt_broker: String,
    /// Client identifier on the broker
    pub client_id: String,
    /// Repository whose events to subscribe to
    pub repo_id: String,
    /// Keep-alive interval in seconds
    pub keep_alive_secs: u64,
}

impl Default for BasyxSubscriberConfig {
    /// The local broker and repository defaults.
    fn default() -> (r: BasyxSubscriberConfig)
        ensures
            r.mqtt_broker@ == "tcp://localhost:1883"@,
            r.repo_id@ == "sm-repo"@,
            r.keep_alive_secs == 30,
    {
        BasyxSubscriberConfig {
            mqtt_broker: String::from_str("tcp://localhost:1883"),
            client_id: String::from_str("aas-deltasync-basyx"),
            repo_id: String::from_str("sm-repo"),
            keep_alive_secs: 30,
        }
    }
}

/// Configuration of the repository HTTP client.
#[derive(Debug, PartialEq, Eq)]
pub struct AasClientConfig {
    /// Base URL of the repository
    pub base_url: String,
    /// Request timeout in milliseconds
    pub timeout_ms: u64,
    /// Bearer token, if the repository wants one
    pub bearer_token: Option<String>,
    /// Custom CA certificate path, for self-signed certificates
    pub ca_cert_path: Option<String>,
    /// Client certificate path, for mutual TLS
    pub client_cert_path: Option<String>,
    /// Client key path, for mutual TLS
    pub client_key_path: Option<String>,
}

impl Default for AasClientConfig {
    /// The local repository, thirty-second timeout, no credentials.
    fn default() -> (r: AasClientConfig)
        ensures
            r.base_url@ == "http://localhost:8081"@,
            r.timeout_ms == 30000,
            r.bearer_token is None,
            r.ca_cert_path is None,
            r.client_cert_path is None,
            r.client_key_path is None,
    {
        AasClientConfig {
            base_url: String::from_str("http://localhost:8081"),
            timeout_ms: 30000,
            bearer_token: None,
            ca_cert_path: None,
            client_cert_path: None,
            client_key_path: None,
        }
    }
}

} // verus!
