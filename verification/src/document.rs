//! Documents: the identity of a replicated submodel view and its CRDT
//! state paired with the clock that stamps local edits.

use vstd::prelude::*;
use vstd::string::{StrSliceExecFns, StringExecFns};
use crate::crdt::{
    delta_apply, lemma_delta_apply_keeps_stamps, lemma_insert_keeps_stamps,
    lemma_merge_keeps_stamps, lemma_remove_keeps_stamps, lemma_stamps_monotone, or_map_insert,
    or_map_merge, or_map_remove, stamps_at_or_below, Delta, OrMap, OrMapView,
};
use crate::hlc::{ts_ceiling, ts_le, ts_lt, Hlc, Timestamp};
use crate::json::JsonValue;

verus! {

/// The serialization view of a submodel that a document replicates.
#[derive(Debug, Clone, Copy, PartialEq, Eq, Hash, Structural)]
pub enum ViewKind {
    /// Full submodel serialization
    Normal,
    /// Value-only serialization
    Value,
    /// Metadata-only serialization
    Metadata,
}

/// The string naming each view kind inside a document id.
pub open spec fn spec_view_kind_str(v: ViewKind) -> Seq<char> {
    match v {
        ViewKind::Normal => seq!['n', 'o', 'r', 'm', 'a', 'l'],
        ViewKind::Value => seq!['$', 'v', 'a', 'l', 'u', 'e'],
        ViewKind::Metadata => seq!['$', 'm', 'e', 't', 'a', 'd', 'a', 't', 'a'],
    }
}

impl ViewKind {
    /// The view kind's name as used in the canonical document id.
    pub fn as_str(&self) -> (r: &'static str)
        ensures
            r@ == spec_view_kind_str(*self),
    {
        proof {
            reveal_strlit("normal");
            reveal_strlit("$value");
            reveal_strlit("$metadata");
            assert("normal"@ =~= spec_view_kind_str(ViewKind::Normal));
            assert("$value"@ =~= spec_view_kind_str(ViewKind::Value));
            assert("$metadata"@ =~= spec_view_kind_str(ViewKind::Metadata));
        }
        match self {
            ViewKind::Normal => "normal",
            ViewKind::Value => "$value",
            ViewKind::Metadata => "$metadata",
        }
    }
}

impl Default for ViewKind {
    /// The value view: the common case for replication.
    fn default() -> (r: ViewKind)
        ensures
            r == ViewKind::Value,
    {
        ViewKind::Value
    }
}

/// The mathematical form of a document id.
#[verifier::ext_equal]
pub struct DocIdView {
    pub aas_id: Seq<char>,
    pub submodel_id: Seq<char>,
    pub view: ViewKind,
}

/// The identity of one replicated document: the shell, the submodel, and
/// the serialization view.
#[derive(Debug, PartialEq, Eq, Hash)]
pub struct DocId {
    /// AAS identifier
    pub aas_id: String,
    /// Submodel identifier
    pub submodel_id: String,
    /// The serialization view being replicated
    pub view: ViewKind,
}

impl View for DocId {
    type V = DocIdView;

    open spec fn view(&self) -> DocIdView {
        DocIdView { aas_id: self.aas_id@, submodel_id: self.submodel_id@, view: self.view }
    }
}

impl Clone for DocId {
    fn clone(&self) -> (r: Self)
        ensures
            r@ == self@,
    {
        DocId {
            aas_id: self.aas_id.clone(),
            submodel_id: self.submodel_id.clone(),
            view: self.view,
        }
    }
}

/// The canonical string form of a document id:
/// `{aas_id}:{submodel_id}:{view}`.
pub open spec fn spec_doc_id_str(d: DocIdView) -> Seq<char> {
    d.aas_id + seq![':'] + d.submodel_id + seq![':'] + spec_view_kind_str(d.view)
}

impl DocId {
    /// A document id from its parts.
    pub fn new(aas_id: &str, submodel_id: &str, view: ViewKind) -> (r: DocId)
        ensures
            r@ == (DocIdView { aas_id: aas_id@, submodel_id: submodel_id@, view }),
    {
        DocId { aas_id: aas_id.to_owned(), submodel_id: submodel_id.to_owned(), view }
    }

    /// A document id for the value view, the common case.
    pub fn value_view(aas_id: &str, submodel_id: &str) -> (r: DocId)
        ensures
            r@ == (DocIdView {
                aas_id: aas_id@,
                submodel_id: submodel_id@,
                view: ViewKind::Value,
            }),
    {
        DocId::new(aas_id, submodel_id, ViewKind::Value)
    }

    /// The canonical string form.
    pub fn to_string(&self) -> (r: String)
        ensures
            r@ == spec_doc_id_str(self@),
    {
        proof {
            reveal_strlit(":");
        }
        let mut r = self.aas_id.clone();
        r.append(":");
        r.append(self.submodel_id.as_str());
        r.append(":");
        r.append(self.view.as_str());
        proof {
            assert(r@ =~= spec_doc_id_str(self@));
        }
        r
    }

    /// The sharding hash of this document id, as sixteen lowercase hex
    /// digits.
    pub fn topic_hash(&self) -> (r: String)
        ensures
            r@ == spec_hex16(spec_fnv1a(vstd::utf8::encode_utf8(spec_doc_id_str(self@)))),
    {
        let s = self.to_string();
        hash_doc_id(s.as_str())
    }
}

/// The 64-bit FNV-1a offset basis.
pub open spec fn fnv_basis() -> u64 {
    0xcbf29ce484222325
}

/// One FNV-1a step: fold one byte into the state.
pub open spec fn fnv_step(h: u64, b: u8) -> u64 {
    mul_wrap(h ^ (b as u64), 0x100000001b3)
}

/// 64-bit wrapping multiplication.
pub open spec fn mul_wrap(a: u64, b: u64) -> u64 {
    ((a as nat * b as nat) % 0x1_0000_0000_0000_0000nat) as u64
}

/// The FNV-1a hash of a byte sequence.
pub open spec fn spec_fnv1a(bytes: Seq<u8>) -> u64
    decreases bytes.len(),
{
    if bytes.len() == 0 {
        fnv_basis()
    } else {
        fnv_step(spec_fnv1a(bytes.drop_last()), bytes.last())
    }
}

/// The lowercase hex digit of a value below sixteen.
pub open spec fn spec_hex_digit(n: u64) -> char {
    if n == 0 {
        '0'
    } else if n == 1 {
        '1'
    } else if n == 2 {
        '2'
    } else if n == 3 {
        '3'
    } else if n == 4 {
        '4'
    } else if n == 5 {
        '5'
    } else if n == 6 {
        '6'
    } else if n == 7 {
        '7'
    } else if n == 8 {
        '8'
    } else if n == 9 {
        '9'
    } else if n == 10 {
        'a'
    } else if n == 11 {
        'b'
    } else if n == 12 {
        'c'
    } else if n == 13 {
        'd'
    } else if n == 14 {
        'e'
    } else {
        'f'
    }
}

/// A 64-bit value as sixteen lowercase hex digits, most significant first.
pub open spec fn spec_hex16(x: u64) -> Seq<char> {
    Seq::new(16, |i: int| spec_hex_digit((x >> ((15 - i) * 4)) & 0xf))
}

/// The sharding hash of a document id string: 64-bit FNV-1a over its
/// UTF-8 bytes, rendered as sixteen lowercase hex digits.
pub fn hash_doc_id(doc_id: &str) -> (r: String)
    ensures
        r@ == spec_hex16(spec_fnv1a(vstd::utf8::encode_utf8(doc_id@))),
{
    let bytes = doc_id.as_bytes();
    let n = bytes.len();
    let mut h: u64 = 0xcbf29ce484222325;
    let mut i: usize = 0;
    while i < n
        invariant
            n == bytes@.len(),
            i <= n,
            h == spec_fnv1a(bytes@.take(i as int)),
        decreases n - i,
    {
        h = (h ^ (bytes[i] as u64)).wrapping_mul(0x100000001b3);
        i += 1;
        proof {
            assert(bytes@.take(i as int).drop_last() =~= bytes@.take(i - 1));
            assert(bytes@.take(i as int).last() == bytes@[i - 1]);
        }
    }
    proof {
        assert(bytes@.take(n as int) =~= bytes@);
    }
    let mut out = String::new();
    let mut j: usize = 0;
    while j < 16
        invariant
            j <= 16,
            out@ == spec_hex16(h).take(j as int),
        decreases 16 - j,
    {
        let shift: u64 = (15 - j as u64) * 4;
        let nib: u64 = (h >> shift) & 0xf;
        proof {
            assert((h >> shift) & 0xf < 16) by (bit_vector);
        }
        let c = hex_digit_str(nib);
        out.append(c);
        j += 1;
        proof {
            assert(spec_hex16(h).take(j as int) =~= spec_hex16(h).take(j - 1).push(
                spec_hex16(h)[j - 1],
            ));
            assert(spec_hex16(h)[j - 1] == spec_hex_digit((h >> ((15 - (j - 1)) * 4)) & 0xf));
        }
    }
    proof {
        assert(spec_hex16(h).take(16) =~= spec_hex16(h));
    }
    out
}

/// The one-character string of a hex digit.
fn hex_digit_str(n: u64) -> (r: &'static str)
    requires
        n < 16,
    ensures
        r@ == seq![spec_hex_digit(n)],
{
    proof {
        reveal_strlit("0");
        reveal_strlit("1");
        reveal_strlit("2");
        reveal_strlit("3");
        reveal_strlit("4");
        reveal_strlit("5");
        reveal_strlit("6");
        reveal_strlit("7");
        reveal_strlit("8");
        reveal_strlit("9");
        reveal_strlit("a");
        reveal_strlit("b");
        reveal_strlit("c");
        reveal_strlit("d");
        reveal_strlit("e");
        reveal_strlit("f");
    }
    if n == 0 {
        "0"
    } else if n == 1 {
        "1"
    } else if n == 2 {
        "2"
    } else if n == 3 {
        "3"
    } else if n == 4 {
        "4"
    } else if n == 5 {
        "5"
    } else if n == 6 {
        "6"
    } else if n == 7 {
        "7"
    } else if n == 8 {
        "8"
    } else if n == 9 {
        "9"
    } else if n == 10 {
        "a"
    } else if n == 11 {
        "b"
    } else if n == 12 {
        "c"
    } else if n == 13 {
        "d"
    } else if n == 14 {
        "e"
    } else {
        "f"
    }
}

/// One replicated document: its identity, its observed-remove map state,
/// and the clock stamping this replica's edits.
#[derive(Debug)]
pub struct CrdtDocument {
    /// Document identifier
    pub id: DocId,
    /// CRDT state: canonical path to value
    pub state: OrMap,
    /// Hybrid logical clock for this document
    pub clock: Hlc,
}

impl CrdtDocument {
    /// The document's representation invariant: the map is well-formed and
    /// the clock has observed every stamp the map holds — every live write
    /// and tombstone is at or below the clock state, short of stamps at the
    /// representation ceiling.
    pub open spec fn wf(&self) -> bool {
        self.state.inv() && stamps_at_or_below(self.state@, self.clock.spec_last())
    }

    /// A new empty document.
    pub fn new(id: DocId, clock: Hlc) -> (r: CrdtDocument)
        ensures
            r.wf(),
            r.id@ == id@,
            r.state@.entries == Map::<Seq<char>, crate::crdt::EntryView>::empty(),
            r.state@.tombstones == Map::<Seq<char>, Timestamp>::empty(),
            r.clock == clock,
    {
        let r = CrdtDocument { id, state: OrMap::new(), clock };
        proof {
            assert(stamps_at_or_below(r.state@, r.clock.spec_last()));
        }
        r
    }

    /// Write a value at a path under a fresh local timestamp; the returned
    /// delta carries exactly that one insert, stamped with the clock's new
    /// state. As long as the clock is not at the representation ceiling
    /// and the path carries no ceiling-stamped state, the fresh write beats
    /// whatever the path held and reads back at once.
    pub fn set(&mut self, path: &str, value: JsonValue) -> (r: Delta)
        requires
            old(self).wf(),
        ensures
            final(self).wf(),
            final(self).id == old(self).id,
            r@.removes.len() == 0,
            r@.inserts.len() == 1,
            r@.inserts[0] == (path@, value@, final(self).clock.spec_last()),
            final(self).state@ == or_map_insert(
                old(self).state@,
                path@,
                value@,
                final(self).clock.spec_last(),
            ),
            !ts_ceiling(old(self).clock.spec_last()) ==> ts_lt(
                old(self).clock.spec_last(),
                final(self).clock.spec_last(),
            ),
            (!ts_ceiling(old(self).clock.spec_last()) && (old(self).state@.tombstones.contains_key(
                path@,
            ) ==> !ts_ceiling(old(self).state@.tombstones[path@])) && (
            old(self).state@.entries.contains_key(path@) ==> !ts_ceiling(
                old(self).state@.entries[path@].reg.timestamp,
            ))) ==> (final(self).state@.entries.contains_key(path@)
                && final(self).state@.entries[path@].reg.value == value@
                && final(self).state@.entries[path@].reg.timestamp
                == final(self).clock.spec_last()),
    {
        let timestamp = self.clock.tick();
        self.state.insert(path.to_owned(), value.clone(), timestamp);
        let mut delta = Delta::new();
        delta.add_insert(path.to_owned(), value, timestamp);
        proof {
            assert(delta@.inserts =~= Seq::<(Seq<char>, crate::json::JsonView, Timestamp)>::empty().push(
                (path@, value@, timestamp),
            ));
            lemma_insert_keeps_stamps(
                old(self).state@,
                path@,
                value@,
                timestamp,
                self.clock.spec_last(),
            );
            lemma_stamps_monotone(
                old(self).state@,
                old(self).clock.spec_last(),
                self.clock.spec_last(),
            );
        }
        delta
    }

    /// The value at a path, if it is live.
    pub fn get(&self, path: &str) -> (r: Option<&JsonValue>)
        requires
            self.wf(),
        ensures
            r matches Some(v) ==> self.state@.entries.contains_key(path@)
                && self.state@.entries[path@].reg.value == v@,
            r is None ==> !self.state@.entries.contains_key(path@),
    {
        self.state.get(path)
    }

    /// Remove a path under a fresh local timestamp; the returned delta
    /// carries exactly that one removal. As long as the clock is not at
    /// the representation ceiling and the path holds no ceiling-stamped
    /// write, the removal tombstones the path at the new clock state and
    /// the path reads back as absent.
    pub fn remove(&mut self, path: &str) -> (r: Delta)
        requires
            old(self).wf(),
        ensures
            final(self).wf(),
            final(self).id == old(self).id,
            r@.inserts.len() == 0,
            r@.removes.len() == 1,
            r@.removes[0] == (path@, final(self).clock.spec_last()),
            final(self).state@ == or_map_remove(
                old(self).state@,
                path@,
                final(self).clock.spec_last(),
            ),
            !ts_ceiling(old(self).clock.spec_last()) ==> ts_lt(
                old(self).clock.spec_last(),
                final(self).clock.spec_last(),
            ),
            (!ts_ceiling(old(self).clock.spec_last()) && (old(self).state@.tombstones.contains_key(
                path@,
            ) ==> !ts_ceiling(old(self).state@.tombstones[path@])) && (
            old(self).state@.entries.contains_key(path@) ==> !ts_ceiling(
                old(self).state@.entries[path@].reg.timestamp,
            ))) ==> (!final(self).state@.entries.contains_key(path@)
                && final(self).state@.tombstones.contains_key(path@)
                && final(self).state@.tombstones[path@] == final(self).clock.spec_last()),
    {
        let timestamp = self.clock.tick();
        self.state.remove(path, timestamp);
        let mut delta = Delta::new();
        delta.add_remove(path.to_owned(), timestamp);
        proof {
            assert(delta@.removes =~= Seq::<(Seq<char>, Timestamp)>::empty().push(
                (path@, timestamp),
            ));
            lemma_remove_keeps_stamps(
                old(self).state@,
                path@,
                timestamp,
                self.clock.spec_last(),
            );
            lemma_stamps_monotone(
                old(self).state@,
                old(self).clock.spec_last(),
                self.clock.spec_last(),
            );
        }
        delta
    }

    /// Apply a delta from another replica: the clock observes every
    /// timestamp the delta carries — ending strictly past each one short of
    /// the representation ceiling — then the delta replays on the state.
    pub fn apply_delta(&mut self, delta: &Delta)
        requires
            old(self).wf(),
        ensures
            final(self).wf(),
            final(self).id == old(self).id,
            final(self).state@ == delta_apply(delta@, old(self).state@),
            ts_le(old(self).clock.spec_last(), final(self).clock.spec_last()),
            forall|k: int|
                0 <= k < delta@.inserts.len() && !ts_ceiling(#[trigger] delta@.inserts[k].2)
                    ==> ts_lt(delta@.inserts[k].2, final(self).clock.spec_last()),
            forall|k: int|
                0 <= k < delta@.removes.len() && !ts_ceiling(#[trigger] delta@.removes[k].1)
                    ==> ts_lt(delta@.removes[k].1, final(self).clock.spec_last()),
    {
        let ni = delta.inserts.len();
        let mut i: usize = 0;
        while i < ni
            invariant
                ni == delta.inserts@.len(),
                i <= ni,
                ts_le(old(self).clock.spec_last(), self.clock.spec_last()),
                forall|k: int|
                    0 <= k < i && !ts_ceiling(#[trigger] delta@.inserts[k].2) ==> ts_lt(
                        delta@.inserts[k].2,
                        self.clock.spec_last(),
                    ),
                self.state == old(self).state,
                self.id == old(self).id,
            decreases ni - i,
        {
            self.clock.update(delta.inserts[i].2);
            i += 1;
        }
        let nr = delta.removes.len();
        let mut i: usize = 0;
        while i < nr
            invariant
                nr == delta.removes@.len(),
                i <= nr,
                ts_le(old(self).clock.spec_last(), self.clock.spec_last()),
                forall|k: int|
                    0 <= k < ni && !ts_ceiling(#[trigger] delta@.inserts[k].2) ==> ts_lt(
                        delta@.inserts[k].2,
                        self.clock.spec_last(),
                    ),
                forall|k: int|
                    0 <= k < i && !ts_ceiling(#[trigger] delta@.removes[k].1) ==> ts_lt(
                        delta@.removes[k].1,
                        self.clock.spec_last(),
                    ),
                self.state == old(self).state,
                self.id == old(self).id,
            decreases nr - i,
        {
            self.clock.update(delta.removes[i].1);
            i += 1;
        }
        proof {
            lemma_stamps_monotone(
                old(self).state@,
                old(self).clock.spec_last(),
                self.clock.spec_last(),
            );
            lemma_delta_apply_keeps_stamps(delta@, old(self).state@, self.clock.spec_last());
        }
        delta.apply_to(&mut self.state);
    }

    /// Merge another document's whole state into this one; the clock
    /// observes the other clock.
    pub fn merge(&mut self, other: &CrdtDocument)
        requires
            old(self).wf(),
            other.wf(),
        ensures
            final(self).wf(),
            final(self).id == old(self).id,
            final(self).state@ == or_map_merge(old(self).state@, other.state@),
            ts_le(old(self).clock.spec_last(), final(self).clock.spec_last()),
    {
        self.clock.update(other.clock.current());
        self.state.merge(&other.state);
    }

    /// The live paths of the document, without duplicates.
    pub fn paths(&self) -> (r: Vec<String>)
        requires
            self.wf(),
        ensures
            r@.len() == self.state@.entries.len(),
            forall|i: int|
                0 <= i < r@.len() ==> self.state@.entries.contains_key(#[trigger] r@[i]@),
            forall|k: Seq<char>|
                #[trigger] self.state@.entries.contains_key(k) ==> exists|i: int|
                    0 <= i < r@.len() && r@[i]@ == k,
    {
        self.state.keys()
    }

    /// The number of live entries.
    pub fn len(&self) -> (r: usize)
        requires
            self.wf(),
        ensures
            r == self.state@.entries.len(),
    {
        self.state.len()
    }

    /// Whether the document holds no live entry.
    pub fn is_empty(&self) -> (r: bool)
        requires
            self.wf(),
        ensures
            r == (self.state@.entries.len() == 0),
    {
        self.state.is_empty()
    }
}

} // verus!
