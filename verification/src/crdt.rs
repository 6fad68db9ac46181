//! Replication primitives: last-writer-wins registers, the observed-remove
//! map of canonical paths to values, and the delta form that carries changes
//! between replicas.
//!
//! Every operation's contract states the new state of the map view exactly,
//! and the laws at the end — merge commutativity, idempotence, associativity
//! of the live state, and remove-wins — are proved from those transitions.

use vstd::prelude::*;
use crate::assoc::{
    assoc_find, assoc_keys_unique, assoc_view, lemma_assoc_view_contains, lemma_assoc_view_index,
    lemma_assoc_view_len, lemma_assoc_view_push, lemma_assoc_view_remove, lemma_assoc_view_update,
};
use crate::hlc::{ts_ceiling, ts_le, ts_lt, Timestamp};
use crate::json::{JsonValue, JsonView};

verus! {

/// The later of two timestamps.
pub open spec fn ts_max(a: Timestamp, b: Timestamp) -> Timestamp {
    if ts_lt(a, b) {
        b
    } else {
        a
    }
}

/// The earlier of two timestamps.
pub open spec fn ts_min(a: Timestamp, b: Timestamp) -> Timestamp {
    if ts_lt(a, b) {
        a
    } else {
        b
    }
}

/// The mathematical form of a last-writer-wins register.
#[verifier::ext_equal]
pub struct RegView {
    pub value: JsonView,
    pub timestamp: Timestamp,
}

/// A last-writer-wins register: a value and the timestamp of the write that
/// set it. Merging keeps the entry with the later timestamp.
#[derive(Debug, PartialEq)]
pub struct LwwRegister {
    /// The stored value
    pub value: JsonValue,
    /// Timestamp of the last write
    pub timestamp: Timestamp,
}

impl View for LwwRegister {
    type V = RegView;

    open spec fn view(&self) -> RegView {
        RegView { value: self.value@, timestamp: self.timestamp }
    }
}

impl Clone for LwwRegister {
    fn clone(&self) -> (r: Self)
        ensures
            r@ == self@,
    {
        LwwRegister { value: self.value.clone(), timestamp: self.timestamp }
    }
}

/// The register after a write: the value with the later timestamp wins, a
/// tie keeps what is there.
pub open spec fn reg_write(r: RegView, value: JsonView, timestamp: Timestamp) -> RegView {
    if ts_lt(r.timestamp, timestamp) {
        RegView { value, timestamp }
    } else {
        r
    }
}

/// The merge of two registers: the later write wins, a tie keeps the left.
pub open spec fn reg_merge(a: RegView, b: RegView) -> RegView {
    if ts_lt(a.timestamp, b.timestamp) {
        b
    } else {
        a
    }
}

impl LwwRegister {
    /// A register holding an initial value.
    pub fn new(value: JsonValue, timestamp: Timestamp) -> (r: LwwRegister)
        ensures
            r@ == (RegView { value: value@, timestamp }),
    {
        LwwRegister { value, timestamp }
    }

    /// Write a value; it takes effect exactly when its timestamp is later
    /// than the current one. Returns whether the register changed.
    pub fn set(&mut self, value: JsonValue, timestamp: Timestamp) -> (updated: bool)
        ensures
            final(self)@ == reg_write(old(self)@, value@, timestamp),
            updated == ts_lt(old(self)@.timestamp, timestamp),
    {
        if self.timestamp.before(&timestamp) {
            self.value = value;
            self.timestamp = timestamp;
            true
        } else {
            false
        }
    }

    /// Merge with another register.
    pub fn merge(&mut self, other: &LwwRegister)
        ensures
            final(self)@ == reg_merge(old(self)@, other@),
    {
        if self.timestamp.before(&other.timestamp) {
            self.value = other.value.clone();
            self.timestamp = other.timestamp;
        }
    }

    /// The register's current state as a delta for replication.
    pub fn to_delta(&self) -> (r: RegisterDelta)
        ensures
            r@ == self@,
    {
        RegisterDelta { value: self.value.clone(), timestamp: self.timestamp }
    }
}

/// A register's state packaged for the wire.
#[derive(Debug, PartialEq)]
pub struct RegisterDelta {
    /// The value to replicate
    pub value: JsonValue,
    /// Timestamp of the value
    pub timestamp: Timestamp,
}

impl View for RegisterDelta {
    type V = RegView;

    open spec fn view(&self) -> RegView {
        RegView { value: self.value@, timestamp: self.timestamp }
    }
}

impl Clone for RegisterDelta {
    fn clone(&self) -> (r: Self)
        ensures
            r@ == self@,
    {
        RegisterDelta { value: self.value.clone(), timestamp: self.timestamp }
    }
}

/// The mathematical form of a live map entry.
#[verifier::ext_equal]
pub struct EntryView {
    pub reg: RegView,
    pub created_at: Timestamp,
}

/// A live entry of the observed-remove map: its register and the timestamp
/// at which the key was first created.
#[derive(Debug, PartialEq)]
pub struct MapEntry {
    /// The stored value, itself a last-writer-wins register
    pub value: LwwRegister,
    /// Entry creation timestamp
    pub created_at: Timestamp,
}

impl View for MapEntry {
    type V = EntryView;

    open spec fn view(&self) -> EntryView {
        EntryView { reg: self.value@, created_at: self.created_at }
    }
}

impl Clone for MapEntry {
    fn clone(&self) -> (r: Self)
        ensures
            r@ == self@,
    {
        MapEntry { value: self.value.clone(), created_at: self.created_at }
    }
}

/// The mathematical form of an observed-remove map: the live entries and
/// the per-key removal tombstones.
#[verifier::ext_equal]
pub struct OrMapView {
    pub entries: Map<Seq<char>, EntryView>,
    pub tombstones: Map<Seq<char>, Timestamp>,
}

/// The state's well-formedness: where a key is both live and tombstoned,
/// the live write is at least as late as the removal.
pub open spec fn or_map_wf(m: OrMapView) -> bool {
    forall|k: Seq<char>|
        #[trigger] m.entries.contains_key(k) && #[trigger] m.tombstones.contains_key(k)
            ==> ts_le(m.tombstones[k], m.entries[k].reg.timestamp)
}

/// An observed-remove map keyed by canonical path strings. Inserts and
/// removes carry timestamps; a removal leaves a tombstone so that older
/// concurrent inserts cannot resurrect the key.
#[derive(Debug)]
pub struct OrMap {
    entries: Vec<(String, MapEntry)>,
    tombstones: Vec<(String, Timestamp)>,
}

impl View for OrMap {
    type V = OrMapView;

    closed spec fn view(&self) -> OrMapView {
        OrMapView {
            entries: assoc_view(self.entries@),
            tombstones: assoc_view(self.tombstones@),
        }
    }
}

/// The map after an insert: a tombstone at or after the write drops it;
/// otherwise the tombstone is cleared and the register written, keeping the
/// original creation stamp of an existing entry.
pub open spec fn or_map_insert(m: OrMapView, k: Seq<char>, v: JsonView, ts: Timestamp) -> OrMapView {
    if m.tombstones.contains_key(k) && ts_le(ts, m.tombstones[k]) {
        m
    } else {
        let entries = if m.entries.contains_key(k) {
            if ts_lt(m.entries[k].reg.timestamp, ts) {
                m.entries.insert(
                    k,
                    EntryView {
                        reg: RegView { value: v, timestamp: ts },
                        created_at: m.entries[k].created_at,
                    },
                )
            } else {
                m.entries
            }
        } else {
            m.entries.insert(
                k,
                EntryView { reg: RegView { value: v, timestamp: ts }, created_at: ts },
            )
        };
        OrMapView { entries, tombstones: m.tombstones.remove(k) }
    }
}

/// The map after a remove: the tombstone rises to the removal's timestamp,
/// and the live entry goes only if the removal is strictly later than its
/// write.
pub open spec fn or_map_remove(m: OrMapView, k: Seq<char>, ts: Timestamp) -> OrMapView {
    let tomb = if m.tombstones.contains_key(k) {
        ts_max(m.tombstones[k], ts)
    } else {
        ts
    };
    let entries = if m.entries.contains_key(k) && ts_lt(m.entries[k].reg.timestamp, ts) {
        m.entries.remove(k)
    } else {
        m.entries
    };
    OrMapView { entries, tombstones: m.tombstones.insert(k, tomb) }
}

/// The merged tombstone for a key: the later of the two sides' tombstones.
pub open spec fn merged_tomb(a: OrMapView, b: OrMapView, k: Seq<char>) -> Option<Timestamp> {
    if a.tombstones.contains_key(k) && b.tombstones.contains_key(k) {
        Some(ts_max(a.tombstones[k], b.tombstones[k]))
    } else if a.tombstones.contains_key(k) {
        Some(a.tombstones[k])
    } else if b.tombstones.contains_key(k) {
        Some(b.tombstones[k])
    } else {
        None
    }
}

/// Two entries combined: the later write wins the register, and the earlier
/// creation stamp is kept.
pub open spec fn entry_lww(x: EntryView, y: EntryView) -> EntryView {
    EntryView {
        reg: reg_merge(x.reg, y.reg),
        created_at: ts_min(x.created_at, y.created_at),
    }
}

/// The combined live candidate for a key, before the tombstone check.
pub open spec fn merged_cand(a: OrMapView, b: OrMapView, k: Seq<char>) -> Option<EntryView> {
    if a.entries.contains_key(k) && b.entries.contains_key(k) {
        Some(entry_lww(a.entries[k], b.entries[k]))
    } else if a.entries.contains_key(k) {
        Some(a.entries[k])
    } else if b.entries.contains_key(k) {
        Some(b.entries[k])
    } else {
        None
    }
}

/// The merged entry for a key: both sides' candidates combine by
/// last-writer-wins, and the result stays live only if its write is
/// strictly later than the merged tombstone.
pub open spec fn merged_entry(a: OrMapView, b: OrMapView, k: Seq<char>) -> Option<EntryView> {
    let cand = merged_cand(a, b, k);
    match (cand, merged_tomb(a, b, k)) {
        (Some(c), Some(t)) => if ts_lt(t, c.reg.timestamp) {
            Some(c)
        } else {
            None
        },
        _ => cand,
    }
}

/// The merge of two map states, key by key.
pub open spec fn or_map_merge(a: OrMapView, b: OrMapView) -> OrMapView {
    OrMapView {
        entries: Map::new(
            |k: Seq<char>| merged_entry(a, b, k) is Some,
            |k: Seq<char>| merged_entry(a, b, k)->0,
        ),
        tombstones: Map::new(
            |k: Seq<char>| merged_tomb(a, b, k) is Some,
            |k: Seq<char>| merged_tomb(a, b, k)->0,
        ),
    }
}

/// Inserting preserves well-formedness.
pub proof fn lemma_insert_preserves_wf(m: OrMapView, k: Seq<char>, v: JsonView, ts: Timestamp)
    requires
        or_map_wf(m),
    ensures
        or_map_wf(or_map_insert(m, k, v, ts)),
{
    let m2 = or_map_insert(m, k, v, ts);
    assert forall|q: Seq<char>|
        #[trigger] m2.entries.contains_key(q) && #[trigger] m2.tombstones.contains_key(q) implies
        ts_le(m2.tombstones[q], m2.entries[q].reg.timestamp) by {
        if !(m.tombstones.contains_key(k) && ts_le(ts, m.tombstones[k])) && q == k {
            assert(!m2.tombstones.contains_key(k));
        }
    }
}

/// Removing preserves well-formedness.
pub proof fn lemma_remove_preserves_wf(m: OrMapView, k: Seq<char>, ts: Timestamp)
    requires
        or_map_wf(m),
    ensures
        or_map_wf(or_map_remove(m, k, ts)),
{
    let m2 = or_map_remove(m, k, ts);
    assert forall|q: Seq<char>|
        #[trigger] m2.entries.contains_key(q) && #[trigger] m2.tombstones.contains_key(q) implies
        ts_le(m2.tombstones[q], m2.entries[q].reg.timestamp) by {
        if q == k && m2.entries.contains_key(k) {
            crate::hlc::lemma_ts_total(m.entries[k].reg.timestamp, ts);
        }
    }
}

/// A map meeting its representation invariant has a well-formed state.
pub proof fn lemma_inv_or_map_wf(m: &OrMap)
    requires
        m.inv(),
    ensures
        or_map_wf(m@),
{
}

impl OrMap {
    /// The representation invariant: keys are unique on both sides, and the
    /// state is well-formed.
    pub closed spec fn inv(&self) -> bool {
        assoc_keys_unique(self.entries@) && assoc_keys_unique(self.tombstones@) && or_map_wf(
            self@,
        )
    }

    /// A new empty map.
    pub fn new() -> (r: OrMap)
        ensures
            r.inv(),
            r@.entries == Map::<Seq<char>, EntryView>::empty(),
            r@.tombstones == Map::<Seq<char>, Timestamp>::empty(),
    {
        OrMap { entries: Vec::new(), tombstones: Vec::new() }
    }

    /// The value at a key, if the key is live.
    pub fn get(&self, key: &str) -> (r: Option<&JsonValue>)
        requires
            self.inv(),
        ensures
            r matches Some(v) ==> self@.entries.contains_key(key@) && self@.entries[key@].reg.value
                == v@,
            r is None ==> !self@.entries.contains_key(key@),
    {
        proof {
            lemma_assoc_view_contains(self.entries@, key@);
        }
        match assoc_find(&self.entries, key) {
            Some(i) => {
                proof {
                    lemma_assoc_view_index(self.entries@, i as int);
                }
                Some(&self.entries[i].1.value.value)
            },
            None => None,
        }
    }

    /// The whole entry at a key, if the key is live.
    pub fn get_entry(&self, key: &str) -> (r: Option<&MapEntry>)
        requires
            self.inv(),
        ensures
            r matches Some(e) ==> self@.entries.contains_key(key@) && self@.entries[key@] == e@,
            r is None ==> !self@.entries.contains_key(key@),
    {
        proof {
            lemma_assoc_view_contains(self.entries@, key@);
        }
        match assoc_find(&self.entries, key) {
            Some(i) => {
                proof {
                    lemma_assoc_view_index(self.entries@, i as int);
                }
                Some(&self.entries[i].1)
            },
            None => None,
        }
    }

    /// Whether a key is live.
    pub fn contains_key(&self, key: &str) -> (r: bool)
        requires
            self.inv(),
        ensures
            r == self@.entries.contains_key(key@),
    {
        proof {
            lemma_assoc_view_contains(self.entries@, key@);
        }
        assoc_find(&self.entries, key).is_some()
    }

    /// The number of live entries.
    pub fn len(&self) -> (r: usize)
        requires
            self.inv(),
        ensures
            r == self@.entries.len(),
    {
        proof {
            lemma_assoc_view_len(self.entries@);
        }
        self.entries.len()
    }

    /// Whether no entry is live.
    pub fn is_empty(&self) -> (r: bool)
        requires
            self.inv(),
        ensures
            r == (self@.entries.len() == 0),
    {
        proof {
            lemma_assoc_view_len(self.entries@);
        }
        self.entries.is_empty()
    }

    /// The live keys, in the map's storage order, without duplicates.
    pub fn keys(&self) -> (r: Vec<String>)
        requires
            self.inv(),
        ensures
            r@.len() == self@.entries.len(),
            forall|i: int| 0 <= i < r@.len() ==> self@.entries.contains_key(#[trigger] r@[i]@),
            forall|k: Seq<char>|
                #[trigger] self@.entries.contains_key(k) ==> exists|i: int|
                    0 <= i < r@.len() && r@[i]@ == k,
    {
        proof {
            lemma_assoc_view_len(self.entries@);
        }
        let n = self.entries.len();
        let mut r: Vec<String> = Vec::new();
        let mut i: usize = 0;
        while i < n
            invariant
                i <= n,
                r@.len() == i,
                forall|j: int| 0 <= j < i ==> r@[j]@ == self.entries@[j].0@,
            decreases n - i,
        {
            r.push(self.entries[i].0.clone());
            i += 1;
        }
        proof {
            assert forall|j: int| 0 <= j < r@.len() implies self@.entries.contains_key(
                #[trigger] r@[j]@,
            ) by {
                lemma_assoc_view_index(self.entries@, j);
            }
            assert forall|k: Seq<char>| #[trigger]
                self@.entries.contains_key(k) implies exists|i: int|
                0 <= i < r@.len() && r@[i]@ == k by {
                lemma_assoc_view_contains(self.entries@, k);
                let j = choose|j: int| 0 <= j < self.entries@.len() && #[trigger] self.entries@[j].0@ == k;
                assert(r@[j]@ == k);
            }
        }
        r
    }

    /// Insert or update a key. A tombstone at or after the write swallows
    /// it; otherwise the tombstone is cleared and the register written.
    /// Returns whether the key was newly created.
    pub fn insert(&mut self, key: String, value: JsonValue, timestamp: Timestamp) -> (r: bool)
        requires
            old(self).inv(),
        ensures
            final(self).inv(),
            final(self)@ == or_map_insert(old(self)@, key@, value@, timestamp),
            r == (!(old(self)@.tombstones.contains_key(key@) && ts_le(
                timestamp,
                old(self)@.tombstones[key@],
            )) && !old(self)@.entries.contains_key(key@)),
    {
        proof {
            lemma_insert_preserves_wf(self@, key@, value@, timestamp);
            lemma_assoc_view_contains(self.tombstones@, key@);
        }
        match assoc_find(&self.tombstones, key.as_str()) {
            Some(i) => {
                proof {
                    lemma_assoc_view_index(self.tombstones@, i as int);
                }
                if !self.tombstones[i].1.before(&timestamp) {
                    proof {
                        crate::hlc::lemma_ts_total(timestamp, self@.tombstones[key@]);
                    }
                    return false;
                }
                proof {
                    lemma_assoc_view_remove(self.tombstones@, i as int);
                }
                self.tombstones.remove(i);
            },
            None => {
                proof {
                    assert(self@.tombstones.remove(key@) =~= self@.tombstones);
                }
            },
        }
        let ghost tombs_after = self@.tombstones;
        proof {
            lemma_assoc_view_contains(self.entries@, key@);
        }
        match assoc_find(&self.entries, key.as_str()) {
            Some(i) => {
                proof {
                    lemma_assoc_view_index(self.entries@, i as int);
                }
                let ghost entries0 = self.entries@;
                let mut pair = self.entries.remove(i);
                let _ = pair.1.value.set(value, timestamp);
                self.entries.insert(i, pair);
                proof {
                    assert(self.entries@ =~= entries0.update(i as int, self.entries@[i as int]));
                    lemma_assoc_view_update(entries0, i as int, self.entries@[i as int]);
                    if !ts_lt(entries0[i as int].1@.reg.timestamp, timestamp) {
                        assert(assoc_view(self.entries@) =~= assoc_view(entries0).insert(
                            key@,
                            assoc_view(entries0)[key@],
                        ));
                        assert(assoc_view(self.entries@) =~= assoc_view(entries0));
                    }
                }
                false
            },
            None => {
                let entry = MapEntry {
                    value: LwwRegister { value, timestamp },
                    created_at: timestamp,
                };
                let pair = (key, entry);
                proof {
                    lemma_assoc_view_push(self.entries@, pair);
                }
                self.entries.push(pair);
                true
            },
        }
    }

    /// Remove a key. The tombstone rises to the removal's timestamp; the
    /// live entry is returned exactly when the removal is strictly later
    /// than its write.
    pub fn remove(&mut self, key: &str, timestamp: Timestamp) -> (r: Option<JsonValue>)
        requires
            old(self).inv(),
        ensures
            final(self).inv(),
            final(self)@ == or_map_remove(old(self)@, key@, timestamp),
            r matches Some(v) ==> old(self)@.entries.contains_key(key@) && ts_lt(
                old(self)@.entries[key@].reg.timestamp,
                timestamp,
            ) && v@ == old(self)@.entries[key@].reg.value,
            r is None ==> !(old(self)@.entries.contains_key(key@) && ts_lt(
                old(self)@.entries[key@].reg.timestamp,
                timestamp,
            )),
    {
        proof {
            lemma_remove_preserves_wf(self@, key@, timestamp);
            lemma_assoc_view_contains(self.tombstones@, key@);
        }
        match assoc_find(&self.tombstones, key) {
            Some(i) => {
                proof {
                    lemma_assoc_view_index(self.tombstones@, i as int);
                }
                if self.tombstones[i].1.before(&timestamp) {
                    let ghost tombs0 = self.tombstones@;
                    let mut p = self.tombstones.remove(i);
                    p.1 = timestamp;
                    self.tombstones.insert(i, p);
                    proof {
                        assert(self.tombstones@ =~= tombs0.update(
                            i as int,
                            self.tombstones@[i as int],
                        ));
                        lemma_assoc_view_update(tombs0, i as int, self.tombstones@[i as int]);
                    }
                } else {
                    proof {
                        assert(self@.tombstones.insert(key@, self@.tombstones[key@])
                            =~= self@.tombstones);
                    }
                }
            },
            None => {
                let pair = (key.to_owned(), timestamp);
                proof {
                    lemma_assoc_view_push(self.tombstones@, pair);
                }
                self.tombstones.push(pair);
            },
        }
        proof {
            lemma_assoc_view_contains(self.entries@, key@);
        }
        match assoc_find(&self.entries, key) {
            Some(i) => {
                proof {
                    lemma_assoc_view_index(self.entries@, i as int);
                }
                if self.entries[i].1.value.timestamp.before(&timestamp) {
                    proof {
                        lemma_assoc_view_remove(self.entries@, i as int);
                    }
                    let p = self.entries.remove(i);
                    Some(p.1.value.value)
                } else {
                    None
                }
            },
            None => {
                proof {
                    assert(self@.entries.remove(key@) =~= self@.entries);
                }
                None
            },
        }
    }

    /// Merge another replica's state into this one: tombstones rise to the
    /// later removal, live entries combine by last-writer-wins keeping the
    /// earlier creation stamp, and an entry stays live only if its write is
    /// strictly later than the merged tombstone.
    pub fn merge(&mut self, other: &OrMap)
        requires
            old(self).inv(),
            other.inv(),
        ensures
            final(self).inv(),
            final(self)@ == or_map_merge(old(self)@, other@),
    {
        let ghost a0 = self@;
        let ghost b0 = other@;
        let ghost entries0 = self.entries@;

        // Tombstones: take the later removal per key.
        let nt = other.tombstones.len();
        let mut j: usize = 0;
        while j < nt
            invariant
                nt == other.tombstones@.len(),
                j <= nt,
                self.entries@ == entries0,
                assoc_keys_unique(self.tombstones@),
                forall|k: Seq<char>|
                    !crate::assoc::prefix_has(other.tombstones@, j as int, k) ==> (
                    #[trigger] assoc_view(self.tombstones@).contains_key(k)
                        == a0.tombstones.contains_key(k) && (a0.tombstones.contains_key(k)
                        ==> assoc_view(self.tombstones@)[k] == a0.tombstones[k])),
                forall|jj: int|
                    0 <= jj < j ==> {
                        let k = #[trigger] other.tombstones@[jj].0@;
                        assoc_view(self.tombstones@).contains_key(k) && assoc_view(
                            self.tombstones@,
                        )[k] == merged_tomb(a0, b0, k)->0
                    },
            decreases nt - j,
        {
            let b_ts = other.tombstones[j].1;
            let ghost pre_tombs = self.tombstones@;
            proof {
                lemma_assoc_view_index(other.tombstones@, j as int);
                lemma_assoc_view_contains(self.tombstones@, other.tombstones@[j as int].0@);
                assert(!crate::assoc::prefix_has(
                    other.tombstones@,
                    j as int,
                    other.tombstones@[j as int].0@,
                ));
            }
            match assoc_find(&self.tombstones, other.tombstones[j].0.as_str()) {
                Some(i) => {
                    proof {
                        lemma_assoc_view_index(self.tombstones@, i as int);
                    }
                    if self.tombstones[i].1.before(&b_ts) {
                        let ghost tombs0 = self.tombstones@;
                        let mut p = self.tombstones.remove(i);
                        p.1 = b_ts;
                        self.tombstones.insert(i, p);
                        proof {
                            assert(self.tombstones@ =~= tombs0.update(
                                i as int,
                                self.tombstones@[i as int],
                            ));
                            lemma_assoc_view_update(tombs0, i as int, self.tombstones@[i as int]);
                        }
                    } else {
                        proof {
                            crate::hlc::lemma_ts_total(
                                assoc_view(self.tombstones@)[other.tombstones@[j as int].0@],
                                b_ts,
                            );
                        }
                    }
                },
                None => {
                    let pair = (other.tombstones[j].0.clone(), b_ts);
                    proof {
                        lemma_assoc_view_push(self.tombstones@, pair);
                    }
                    self.tombstones.push(pair);
                },
            }
            j += 1;
            proof {
                assert forall|jj: int| 0 <= jj < j implies {
                    let k = #[trigger] other.tombstones@[jj].0@;
                    assoc_view(self.tombstones@).contains_key(k) && assoc_view(
                        self.tombstones@,
                    )[k] == merged_tomb(a0, b0, k)->0
                } by {
                    if jj < j - 1 {
                        assert(other.tombstones@[jj].0@ != other.tombstones@[j - 1].0@);
                    }
                }
                assert forall|k: Seq<char>|
                    !crate::assoc::prefix_has(other.tombstones@, j as int, k) implies (
                #[trigger] assoc_view(self.tombstones@).contains_key(k) == a0.tombstones.contains_key(
                    k,
                ) && (a0.tombstones.contains_key(k) ==> assoc_view(self.tombstones@)[k]
                    == a0.tombstones[k])) by {
                    assert(other.tombstones@[j - 1].0@ != k);
                    assert(!crate::assoc::prefix_has(other.tombstones@, j - 1, k));
                    assert(assoc_view(pre_tombs).contains_key(k) == a0.tombstones.contains_key(k));
                    assert(a0.tombstones.contains_key(k) ==> assoc_view(pre_tombs)[k]
                        == a0.tombstones[k]);
                }
            }
        }
        let ghost tombs_merged = assoc_view(self.tombstones@);
        proof {
            assert forall|k: Seq<char>| true implies #[trigger] tombs_merged.contains_key(k)
                == (merged_tomb(a0, b0, k) is Some) && (merged_tomb(a0, b0, k) is Some
                ==> tombs_merged[k] == merged_tomb(a0, b0, k)->0) by {
                lemma_assoc_view_contains(other.tombstones@, k);
                if b0.tombstones.contains_key(k) {
                    let jj = choose|jj: int|
                        0 <= jj < other.tombstones@.len() && #[trigger] other.tombstones@[jj].0@
                            == k;
                } else {
                    assert(!crate::assoc::prefix_has(
                        other.tombstones@,
                        other.tombstones@.len() as int,
                        k,
                    ));
                }
            }
            assert(tombs_merged =~= or_map_merge(a0, b0).tombstones);
        }

        // Entries: combine both sides' candidates by last-writer-wins.
        let ne = other.entries.len();
        let mut j: usize = 0;
        while j < ne
            invariant
                ne == other.entries@.len(),
                j <= ne,
                assoc_view(self.tombstones@) == tombs_merged,
                assoc_keys_unique(self.tombstones@),
                assoc_keys_unique(self.entries@),
                forall|k: Seq<char>|
                    !crate::assoc::prefix_has(other.entries@, j as int, k) ==> (
                    #[trigger] assoc_view(self.entries@).contains_key(k)
                        == a0.entries.contains_key(k) && (a0.entries.contains_key(k)
                        ==> assoc_view(self.entries@)[k] == a0.entries[k])),
                forall|jj: int|
                    0 <= jj < j ==> {
                        let k = #[trigger] other.entries@[jj].0@;
                        assoc_view(self.entries@).contains_key(k) && assoc_view(self.entries@)[k]
                            == merged_cand(a0, b0, k)->0
                    },
            decreases ne - j,
        {
            let ghost pre_entries = self.entries@;
            proof {
                lemma_assoc_view_index(other.entries@, j as int);
                lemma_assoc_view_contains(self.entries@, other.entries@[j as int].0@);
                assert(!crate::assoc::prefix_has(
                    other.entries@,
                    j as int,
                    other.entries@[j as int].0@,
                ));
            }
            match assoc_find(&self.entries, other.entries[j].0.as_str()) {
                Some(i) => {
                    proof {
                        lemma_assoc_view_index(self.entries@, i as int);
                    }
                    let ghost ents0 = self.entries@;
                    let mut pair = self.entries.remove(i);
                    pair.1.value.merge(&other.entries[j].1.value);
                    if other.entries[j].1.created_at.before(&pair.1.created_at) {
                        pair.1.created_at = other.entries[j].1.created_at;
                    }
                    self.entries.insert(i, pair);
                    proof {
                        assert(self.entries@ =~= ents0.update(i as int, self.entries@[i as int]));
                        lemma_assoc_view_update(ents0, i as int, self.entries@[i as int]);
                        crate::hlc::lemma_ts_total(
                            a0.entries[other.entries@[j as int].0@].created_at,
                            b0.entries[other.entries@[j as int].0@].created_at,
                        );
                    }
                },
                None => {
                    let pair = (other.entries[j].0.clone(), other.entries[j].1.clone());
                    proof {
                        lemma_assoc_view_push(self.entries@, pair);
                    }
                    self.entries.push(pair);
                },
            }
            j += 1;
            proof {
                assert forall|jj: int| 0 <= jj < j implies {
                    let k = #[trigger] other.entries@[jj].0@;
                    assoc_view(self.entries@).contains_key(k) && assoc_view(self.entries@)[k]
                        == merged_cand(a0, b0, k)->0
                } by {
                    if jj < j - 1 {
                        assert(other.entries@[jj].0@ != other.entries@[j - 1].0@);
                    }
                }
                assert forall|k: Seq<char>|
                    !crate::assoc::prefix_has(other.entries@, j as int, k) implies (
                #[trigger] assoc_view(self.entries@).contains_key(k) == a0.entries.contains_key(k)
                    && (a0.entries.contains_key(k) ==> assoc_view(self.entries@)[k]
                    == a0.entries[k])) by {
                    assert(other.entries@[j - 1].0@ != k);
                    assert(!crate::assoc::prefix_has(other.entries@, j - 1, k));
                    assert(assoc_view(pre_entries).contains_key(k) == a0.entries.contains_key(k));
                    assert(a0.entries.contains_key(k) ==> assoc_view(pre_entries)[k]
                        == a0.entries[k]);
                }
            }
        }
        let ghost cand_view = assoc_view(self.entries@);
        proof {
            assert forall|k: Seq<char>| true implies #[trigger] cand_view.contains_key(k)
                == (merged_cand(a0, b0, k) is Some) && (merged_cand(a0, b0, k) is Some
                ==> cand_view[k] == merged_cand(a0, b0, k)->0) by {
                lemma_assoc_view_contains(other.entries@, k);
                if b0.entries.contains_key(k) {
                    let jj = choose|jj: int|
                        0 <= jj < other.entries@.len() && #[trigger] other.entries@[jj].0@ == k;
                } else {
                    assert(!crate::assoc::prefix_has(
                        other.entries@,
                        other.entries@.len() as int,
                        k,
                    ));
                }
            }
        }

        // Eviction: drop candidates at or before the merged tombstone.
        let ghost cand_seq = self.entries@;
        let nk = self.entries.len();
        let mut kept: Vec<(String, MapEntry)> = Vec::new();
        let mut i: usize = 0;
        while i < nk
            invariant
                nk == cand_seq.len(),
                self.entries@ == cand_seq,
                i <= nk,
                assoc_view(self.tombstones@) == tombs_merged,
                assoc_keys_unique(cand_seq),
                assoc_keys_unique(self.tombstones@),
                assoc_keys_unique(kept@),
                forall|k: Seq<char>|
                    #[trigger] assoc_view(kept@).contains_key(k) ==> crate::assoc::prefix_has(
                        cand_seq,
                        i as int,
                        k,
                    ),
                forall|jj: int|
                    0 <= jj < i ==> {
                        let k = #[trigger] cand_seq[jj].0@;
                        assoc_view(kept@).contains_key(k) == (merged_entry(a0, b0, k) is Some)
                            && (merged_entry(a0, b0, k) is Some ==> assoc_view(kept@)[k]
                            == merged_entry(a0, b0, k)->0)
                    },
            decreases nk - i,
        {
            proof {
                lemma_assoc_view_index(cand_seq, i as int);
                lemma_assoc_view_contains(self.tombstones@, cand_seq[i as int].0@);
                lemma_assoc_view_contains(kept@, cand_seq[i as int].0@);
                assert(!crate::assoc::prefix_has(cand_seq, i as int, cand_seq[i as int].0@));
            }
            let keep = match assoc_find(&self.tombstones, self.entries[i].0.as_str()) {
                Some(t) => {
                    proof {
                        lemma_assoc_view_index(self.tombstones@, t as int);
                    }
                    self.tombstones[t].1.before(&self.entries[i].1.value.timestamp)
                },
                None => true,
            };
            if keep {
                let pair = (self.entries[i].0.clone(), self.entries[i].1.clone());
                proof {
                    lemma_assoc_view_push(kept@, pair);
                }
                kept.push(pair);
            }
            i += 1;
            proof {
                assert forall|jj: int| 0 <= jj < i implies {
                    let k = #[trigger] cand_seq[jj].0@;
                    assoc_view(kept@).contains_key(k) == (merged_entry(a0, b0, k) is Some) && (
                    merged_entry(a0, b0, k) is Some ==> assoc_view(kept@)[k] == merged_entry(
                        a0,
                        b0,
                        k,
                    )->0)
                } by {
                    if jj < i - 1 {
                        assert(cand_seq[jj].0@ != cand_seq[i - 1].0@);
                    }
                }
            }
        }
        self.entries = kept;
        proof {
            assert forall|k: Seq<char>| true implies #[trigger] assoc_view(
                self.entries@,
            ).contains_key(k) == (merged_entry(a0, b0, k) is Some) && (merged_entry(a0, b0, k)
                is Some ==> assoc_view(self.entries@)[k] == merged_entry(a0, b0, k)->0) by {
                lemma_assoc_view_contains(cand_seq, k);
                if cand_view.contains_key(k) {
                    let jj = choose|jj: int|
                        0 <= jj < cand_seq.len() && #[trigger] cand_seq[jj].0@ == k;
                } else {
                    if assoc_view(self.entries@).contains_key(k) {
                        let jj = choose|jj: int|
                            0 <= jj < cand_seq.len() && #[trigger] cand_seq[jj].0@ == k;
                    }
                }
            }
            assert(assoc_view(self.entries@) =~= or_map_merge(a0, b0).entries);
            assert(final(self)@ =~= or_map_merge(a0, b0));
        }
    }

    /// The live rows as stored: unique keys, denoting exactly the entries
    /// view. For serializing the state.
    pub fn entry_rows(&self) -> (r: &Vec<(String, MapEntry)>)
        requires
            self.inv(),
        ensures
            assoc_keys_unique(r@),
            assoc_view(r@) == self@.entries,
    {
        &self.entries
    }

    /// The tombstone rows as stored: unique keys, denoting exactly the
    /// tombstones view. For serializing the state.
    pub fn tombstone_rows(&self) -> (r: &Vec<(String, Timestamp)>)
        requires
            self.inv(),
        ensures
            assoc_keys_unique(r@),
            assoc_view(r@) == self@.tombstones,
    {
        &self.tombstones
    }

    /// Rebuild a map from rows, validating what the invariant demands:
    /// unique keys on both sides, and no live write below its own key's
    /// tombstone. Exactly the valid row sets reconstruct.
    pub fn from_rows(entries: Vec<(String, MapEntry)>, tombstones: Vec<(String, Timestamp)>) -> (r:
        Option<OrMap>)
        ensures
            r matches Some(m) ==> m.inv() && m@.entries == assoc_view(entries@)
                && m@.tombstones == assoc_view(tombstones@),
            (assoc_keys_unique(entries@) && assoc_keys_unique(tombstones@) && or_map_wf(
                OrMapView {
                    entries: assoc_view(entries@),
                    tombstones: assoc_view(tombstones@),
                },
            )) ==> r is Some,
            r is Some ==> assoc_keys_unique(entries@) && assoc_keys_unique(tombstones@)
                && or_map_wf(
                OrMapView { entries: assoc_view(entries@), tombstones: assoc_view(tombstones@) },
            ),
    {
        if !keys_unique_entries(&entries) {
            return None;
        }
        if !keys_unique_tombstones(&tombstones) {
            return None;
        }
        // every tombstoned key that is also live must sit at or below the
        // live write
        let nt = tombstones.len();
        let mut i: usize = 0;
        while i < nt
            invariant
                nt == tombstones@.len(),
                i <= nt,
                assoc_keys_unique(entries@),
                assoc_keys_unique(tombstones@),
                forall|k: int|
                    0 <= k < i ==> (assoc_view(entries@).contains_key(
                        #[trigger] tombstones@[k].0@,
                    ) ==> ts_le(
                        tombstones@[k].1,
                        assoc_view(entries@)[tombstones@[k].0@].reg.timestamp,
                    )),
            decreases nt - i,
        {
            proof {
                lemma_assoc_view_contains(entries@, tombstones@[i as int].0@);
                lemma_assoc_view_index(tombstones@, i as int);
            }
            match assoc_find(&entries, tombstones[i].0.as_str()) {
                Some(j) => {
                    proof {
                        lemma_assoc_view_index(entries@, j as int);
                    }
                    if entries[j].1.value.timestamp.before(&tombstones[i].1) {
                        proof {
                            let gm = OrMapView {
                                entries: assoc_view(entries@),
                                tombstones: assoc_view(tombstones@),
                            };
                            let k = tombstones@[i as int].0@;
                            if assoc_keys_unique(entries@) && assoc_keys_unique(tombstones@)
                                && or_map_wf(gm) {
                                assert(gm.entries.contains_key(k));
                                assert(gm.tombstones.contains_key(k));
                                assert(ts_le(gm.tombstones[k], gm.entries[k].reg.timestamp));
                                crate::hlc::lemma_ts_total(
                                    gm.tombstones[k],
                                    gm.entries[k].reg.timestamp,
                                );
                                assert(false);
                            }
                        }
                        return None;
                    }
                    proof {
                        crate::hlc::lemma_ts_total(
                            tombstones@[i as int].1,
                            entries@[j as int].1@.reg.timestamp,
                        );
                    }
                },
                None => {},
            }
            i += 1;
        }
        let m = OrMap { entries, tombstones };
        proof {
            assert forall|k: Seq<char>|
                #[trigger] m@.entries.contains_key(k) && #[trigger] m@.tombstones.contains_key(
                    k,
                ) implies ts_le(m@.tombstones[k], m@.entries[k].reg.timestamp) by {
                lemma_assoc_view_contains(m.tombstones@, k);
                let kk = choose|kk: int|
                    0 <= kk < m.tombstones@.len() && #[trigger] m.tombstones@[kk].0@ == k;
                lemma_assoc_view_index(m.tombstones@, kk);
            }
        }
        Some(m)
    }
}

/// Whether the entry rows carry pairwise distinct keys.
fn keys_unique_entries(rows: &Vec<(String, MapEntry)>) -> (r: bool)
    ensures
        r == assoc_keys_unique(rows@),
{
    let n = rows.len();
    let mut i: usize = 0;
    while i < n
        invariant
            n == rows@.len(),
            i <= n,
            forall|a: int, b: int| 0 <= a < b < i ==> rows@[a].0@ != rows@[b].0@,
        decreases n - i,
    {
        let mut j: usize = 0;
        while j < i
            invariant
                i < n == rows@.len(),
                j <= i,
                forall|a: int, b: int| 0 <= a < b < i ==> rows@[a].0@ != rows@[b].0@,
                forall|a: int| 0 <= a < j ==> rows@[a].0@ != rows@[i as int].0@,
            decreases i - j,
        {
            if crate::strutil::str_eq(rows[j].0.as_str(), rows[i].0.as_str()) {
                return false;
            }
            j += 1;
        }
        i += 1;
    }
    true
}

/// Whether the tombstone rows carry pairwise distinct keys.
fn keys_unique_tombstones(rows: &Vec<(String, Timestamp)>) -> (r: bool)
    ensures
        r == assoc_keys_unique(rows@),
{
    let n = rows.len();
    let mut i: usize = 0;
    while i < n
        invariant
            n == rows@.len(),
            i <= n,
            forall|a: int, b: int| 0 <= a < b < i ==> rows@[a].0@ != rows@[b].0@,
        decreases n - i,
    {
        let mut j: usize = 0;
        while j < i
            invariant
                i < n == rows@.len(),
                j <= i,
                forall|a: int, b: int| 0 <= a < b < i ==> rows@[a].0@ != rows@[b].0@,
                forall|a: int| 0 <= a < j ==> rows@[a].0@ != rows@[i as int].0@,
            decreases i - j,
        {
            if crate::strutil::str_eq(rows[j].0.as_str(), rows[i].0.as_str()) {
                return false;
            }
            j += 1;
        }
        i += 1;
    }
    true
}

impl OrMap {
    /// Drop every tombstone strictly older than `before`. Safe only once
    /// every peer has acknowledged deltas past `before` for this document;
    /// otherwise a late concurrent insert below the dropped tombstone could
    /// resurrect a removed key.
    pub fn compact_tombstones(&mut self, before: Timestamp)
        requires
            old(self).inv(),
        ensures
            final(self).inv(),
            final(self)@ == or_map_compact(old(self)@, before),
    {
        let ghost a0 = self@;
        let ghost tombs_seq = self.tombstones@;
        let n = self.tombstones.len();
        let mut kept: Vec<(String, Timestamp)> = Vec::new();
        let mut i: usize = 0;
        while i < n
            invariant
                n == tombs_seq.len(),
                self.tombstones@ == tombs_seq,
                i <= n,
                assoc_keys_unique(tombs_seq),
                assoc_keys_unique(kept@),
                forall|k: Seq<char>|
                    #[trigger] assoc_view(kept@).contains_key(k) ==> crate::assoc::prefix_has(
                        tombs_seq,
                        i as int,
                        k,
                    ),
                forall|jj: int|
                    0 <= jj < i ==> {
                        let k = #[trigger] tombs_seq[jj].0@;
                        assoc_view(kept@).contains_key(k) == (a0.tombstones.contains_key(k)
                            && ts_le(before, a0.tombstones[k])) && (assoc_view(
                            kept@,
                        ).contains_key(k) ==> assoc_view(kept@)[k] == a0.tombstones[k])
                    },
            decreases n - i,
        {
            proof {
                lemma_assoc_view_index(tombs_seq, i as int);
                lemma_assoc_view_contains(kept@, tombs_seq[i as int].0@);
                assert(!crate::assoc::prefix_has(tombs_seq, i as int, tombs_seq[i as int].0@));
                crate::hlc::lemma_ts_total(before, tombs_seq[i as int].1);
            }
            if !self.tombstones[i].1.before(&before) {
                let pair = (self.tombstones[i].0.clone(), self.tombstones[i].1);
                proof {
                    lemma_assoc_view_push(kept@, pair);
                }
                kept.push(pair);
            }
            i += 1;
            proof {
                assert forall|jj: int| 0 <= jj < i implies {
                    let k = #[trigger] tombs_seq[jj].0@;
                    assoc_view(kept@).contains_key(k) == (a0.tombstones.contains_key(k) && ts_le(
                        before,
                        a0.tombstones[k],
                    )) && (assoc_view(kept@).contains_key(k) ==> assoc_view(kept@)[k]
                        == a0.tombstones[k])
                } by {
                    if jj < i - 1 {
                        assert(tombs_seq[jj].0@ != tombs_seq[i - 1].0@);
                    }
                }
            }
        }
        self.tombstones = kept;
        proof {
            assert forall|k: Seq<char>| true implies #[trigger] assoc_view(
                self.tombstones@,
            ).contains_key(k) == (a0.tombstones.contains_key(k) && ts_le(before, a0.tombstones[k]))
                && (assoc_view(self.tombstones@).contains_key(k) ==> assoc_view(
                self.tombstones@,
            )[k] == a0.tombstones[k]) by {
                lemma_assoc_view_contains(tombs_seq, k);
                if a0.tombstones.contains_key(k) || assoc_view(self.tombstones@).contains_key(k) {
                    if exists|jj: int| 0 <= jj < tombs_seq.len() && #[trigger] tombs_seq[jj].0@
                        == k {
                        let jj = choose|jj: int|
                            0 <= jj < tombs_seq.len() && #[trigger] tombs_seq[jj].0@ == k;
                    }
                }
            }
            assert(assoc_view(self.tombstones@) =~= or_map_compact(a0, before).tombstones);
            assert(final(self)@ =~= or_map_compact(a0, before));
        }
    }
}

/// The map after tombstone compaction: tombstones from before the horizon
/// are gone, live entries are untouched.
pub open spec fn or_map_compact(m: OrMapView, before: Timestamp) -> OrMapView {
    OrMapView {
        entries: m.entries,
        tombstones: Map::new(
            |k: Seq<char>| m.tombstones.contains_key(k) && ts_le(before, m.tombstones[k]),
            |k: Seq<char>| m.tombstones[k],
        ),
    }
}

/// The mathematical form of a delta.
#[verifier::ext_equal]
pub struct DeltaView {
    pub inserts: Seq<(Seq<char>, JsonView, Timestamp)>,
    pub removes: Seq<(Seq<char>, Timestamp)>,
}

/// A change set for one document: the inserts and removes to replay on a
/// replica's map, each stamped by the clock.
#[derive(Debug, PartialEq)]
pub struct Delta {
    /// Inserted or updated entries
    pub inserts: Vec<(String, JsonValue, Timestamp)>,
    /// Removed keys
    pub removes: Vec<(String, Timestamp)>,
}

impl View for Delta {
    type V = DeltaView;

    open spec fn view(&self) -> DeltaView {
        DeltaView {
            inserts: self.inserts@.map_values(
                |p: (String, JsonValue, Timestamp)| (p.0@, p.1@, p.2),
            ),
            removes: self.removes@.map_values(|p: (String, Timestamp)| (p.0@, p.1)),
        }
    }
}

/// The stamps a delta carries, inserts first, in list order.
pub open spec fn delta_stamps(d: DeltaView) -> Seq<Timestamp> {
    d.inserts.map_values(|e: (Seq<char>, JsonView, Timestamp)| e.2) + d.removes.map_values(
        |e: (Seq<char>, Timestamp)| e.1,
    )
}

/// The map after replaying a sequence of inserts in order.
pub open spec fn apply_inserts(
    m: OrMapView,
    ins: Seq<(Seq<char>, JsonView, Timestamp)>,
) -> OrMapView
    decreases ins.len(),
{
    if ins.len() == 0 {
        m
    } else {
        or_map_insert(
            apply_inserts(m, ins.drop_last()),
            ins.last().0,
            ins.last().1,
            ins.last().2,
        )
    }
}

/// The map after replaying a sequence of removes in order.
pub open spec fn apply_removes(m: OrMapView, rem: Seq<(Seq<char>, Timestamp)>) -> OrMapView
    decreases rem.len(),
{
    if rem.len() == 0 {
        m
    } else {
        or_map_remove(apply_removes(m, rem.drop_last()), rem.last().0, rem.last().1)
    }
}

/// The map after a delta: its inserts replay in order, then its removes.
pub open spec fn delta_apply(d: DeltaView, m: OrMapView) -> OrMapView {
    apply_removes(apply_inserts(m, d.inserts), d.removes)
}

impl Delta {
    /// An empty delta.
    pub fn new() -> (r: Delta)
        ensures
            r@.inserts.len() == 0,
            r@.removes.len() == 0,
    {
        Delta { inserts: Vec::new(), removes: Vec::new() }
    }

    /// Record an insert or update.
    pub fn add_insert(&mut self, key: String, value: JsonValue, timestamp: Timestamp)
        ensures
            final(self)@.inserts == old(self)@.inserts.push((key@, value@, timestamp)),
            final(self)@.removes == old(self)@.removes,
    {
        self.inserts.push((key, value, timestamp));
        proof {
            assert(self@.inserts =~= old(self)@.inserts.push((key@, value@, timestamp)));
            assert(self@.removes =~= old(self)@.removes);
        }
    }

    /// Record a removal.
    pub fn add_remove(&mut self, key: String, timestamp: Timestamp)
        ensures
            final(self)@.removes == old(self)@.removes.push((key@, timestamp)),
            final(self)@.inserts == old(self)@.inserts,
    {
        self.removes.push((key, timestamp));
        proof {
            assert(self@.removes =~= old(self)@.removes.push((key@, timestamp)));
            assert(self@.inserts =~= old(self)@.inserts);
        }
    }

    /// Whether the delta changes nothing.
    pub fn is_empty(&self) -> (r: bool)
        ensures
            r == (self@.inserts.len() == 0 && self@.removes.len() == 0),
    {
        self.inserts.is_empty() && self.removes.is_empty()
    }

    /// Replay this delta on a map: inserts in order, then removes.
    pub fn apply_to(&self, map: &mut OrMap)
        requires
            old(map).inv(),
        ensures
            final(map).inv(),
            final(map)@ == delta_apply(self@, old(map)@),
    {
        let ghost m0 = map@;
        let ni = self.inserts.len();
        let mut i: usize = 0;
        while i < ni
            invariant
                ni == self.inserts@.len(),
                i <= ni,
                map.inv(),
                map@ == apply_inserts(m0, self@.inserts.take(i as int)),
            decreases ni - i,
        {
            let key = self.inserts[i].0.clone();
            let value = self.inserts[i].1.clone();
            let ts = self.inserts[i].2;
            map.insert(key, value, ts);
            i += 1;
            proof {
                assert(self@.inserts.take(i as int).drop_last() =~= self@.inserts.take(i - 1));
                assert(self@.inserts.take(i as int).last() == self@.inserts[i - 1]);
            }
        }
        proof {
            assert(self@.inserts.take(ni as int) =~= self@.inserts);
        }
        let nr = self.removes.len();
        let ghost m1 = map@;
        let mut i: usize = 0;
        while i < nr
            invariant
                nr == self.removes@.len(),
                i <= nr,
                map.inv(),
                m1 == apply_inserts(m0, self@.inserts),
                map@ == apply_removes(m1, self@.removes.take(i as int)),
            decreases nr - i,
        {
            let ts = self.removes[i].1;
            map.remove(self.removes[i].0.as_str(), ts);
            i += 1;
            proof {
                assert(self@.removes.take(i as int).drop_last() =~= self@.removes.take(i - 1));
                assert(self@.removes.take(i as int).last() == self@.removes[i - 1]);
            }
        }
        proof {
            assert(self@.removes.take(nr as int) =~= self@.removes);
        }
    }
}


/// What a reader sees at a key: the value of the live entry, if any.
pub open spec fn or_map_get(m: OrMapView, k: Seq<char>) -> Option<JsonView> {
    if m.entries.contains_key(k) {
        Some(m.entries[k].reg.value)
    } else {
        None
    }
}

/// The observable live state: each live key's register, without the
/// creation metadata.
pub open spec fn live_view(m: OrMapView) -> Map<Seq<char>, RegView> {
    Map::new(
        |k: Seq<char>| m.entries.contains_key(k),
        |k: Seq<char>| m.entries[k].reg,
    )
}

/// Two states agree on registers: where both hold a live entry under the
/// same write timestamp, it is the same write. States that observed one
/// HLC history satisfy this, because no timestamp stamps two writes.
pub open spec fn regs_agree(a: OrMapView, b: OrMapView) -> bool {
    forall|k: Seq<char>|
        #[trigger] a.entries.contains_key(k) && #[trigger] b.entries.contains_key(k)
            && a.entries[k].reg.timestamp == b.entries[k].reg.timestamp ==> a.entries[k].reg
            == b.entries[k].reg
}

/// Tombstones strictly precede the live writes they share a key with; every
/// state whose operations carried pairwise distinct timestamps has this.
pub open spec fn or_map_strict(m: OrMapView) -> bool {
    forall|k: Seq<char>|
        #[trigger] m.entries.contains_key(k) && #[trigger] m.tombstones.contains_key(k)
            ==> ts_lt(m.tombstones[k], m.entries[k].reg.timestamp)
}

/// Removal wins against an older write, and a strictly newer write wins
/// back: after insert at t1, remove at t2 > t1, the key reads as absent;
/// a further insert at t3 > t2 makes it read as that new value.
pub proof fn lemma_remove_wins_then_newer_insert(
    m: OrMapView,
    k: Seq<char>,
    v1: JsonView,
    v2: JsonView,
    t1: Timestamp,
    t2: Timestamp,
    t3: Timestamp,
)
    requires
        !m.tombstones.contains_key(k),
        m.entries.contains_key(k) ==> ts_lt(m.entries[k].reg.timestamp, t1),
        ts_lt(t1, t2),
        ts_lt(t2, t3),
    ensures
        or_map_get(or_map_remove(or_map_insert(m, k, v1, t1), k, t2), k) is None,
        or_map_get(
            or_map_insert(or_map_remove(or_map_insert(m, k, v1, t1), k, t2), k, v2, t3),
            k,
        ) == Some(v2),
{
}

/// A remove at or before the live write does not unseat it, and an insert
/// at or below the tombstone is swallowed: the add wins ties.
pub proof fn lemma_add_wins_equal_stamp(m: OrMapView, k: Seq<char>, v: JsonView, t: Timestamp)
    requires
        m.entries.contains_key(k),
        m.entries[k].reg.timestamp == t,
    ensures
        or_map_get(or_map_remove(m, k, t), k) == Some(m.entries[k].reg.value),
{
}

/// Merging is commutative on states that agree on registers.
pub proof fn lemma_merge_commutative(a: OrMapView, b: OrMapView)
    requires
        regs_agree(a, b),
    ensures
        or_map_merge(a, b) == or_map_merge(b, a),
{
    assert forall|k: Seq<char>| true implies #[trigger] merged_tomb(a, b, k) == merged_tomb(
        b,
        a,
        k,
    ) by {
        if a.tombstones.contains_key(k) && b.tombstones.contains_key(k) {
            crate::hlc::lemma_ts_total(a.tombstones[k], b.tombstones[k]);
        }
    }
    assert forall|k: Seq<char>| true implies #[trigger] merged_entry(a, b, k) == merged_entry(
        b,
        a,
        k,
    ) by {
        if a.entries.contains_key(k) && b.entries.contains_key(k) {
            crate::hlc::lemma_ts_total(a.entries[k].reg.timestamp, b.entries[k].reg.timestamp);
            crate::hlc::lemma_ts_total(a.entries[k].created_at, b.entries[k].created_at);
        }
    }
    assert(or_map_merge(a, b).tombstones =~= or_map_merge(b, a).tombstones);
    assert(or_map_merge(a, b).entries =~= or_map_merge(b, a).entries);
    assert(or_map_merge(a, b) =~= or_map_merge(b, a));
}

/// Merging a state with itself changes nothing.
pub proof fn lemma_merge_idempotent(a: OrMapView)
    requires
        or_map_strict(a),
    ensures
        or_map_merge(a, a) == a,
{
    assert forall|k: Seq<char>| true implies #[trigger] merged_tomb(a, a, k) == (
    if a.tombstones.contains_key(k) {
        Some(a.tombstones[k])
    } else {
        None
    }) by {
        if a.tombstones.contains_key(k) {
            crate::hlc::lemma_ts_total(a.tombstones[k], a.tombstones[k]);
        }
    }
    assert(or_map_merge(a, a).tombstones =~= a.tombstones);
    assert forall|k: Seq<char>| true implies #[trigger] merged_entry(a, a, k) == (
    if a.entries.contains_key(k) {
        Some(a.entries[k])
    } else {
        None
    }) by {
    }
    assert(or_map_merge(a, a).entries =~= a.entries);
    assert(or_map_merge(a, a) =~= a);
}

/// Merging is associative on the observable state: the tombstones and the
/// live registers come out the same whichever way three states fold
/// together. The creation metadata is not covered: an entry that one
/// grouping evicts before its creation stamp is combined can surface a
/// later stamp than the other grouping keeps.
pub proof fn lemma_merge_associative_live(a: OrMapView, b: OrMapView, c: OrMapView)
    ensures
        or_map_merge(or_map_merge(a, b), c).tombstones == or_map_merge(
            a,
            or_map_merge(b, c),
        ).tombstones,
        live_view(or_map_merge(or_map_merge(a, b), c)) == live_view(
            or_map_merge(a, or_map_merge(b, c)),
        ),
{
    let ab = or_map_merge(a, b);
    let bc = or_map_merge(b, c);
    let abc1 = or_map_merge(ab, c);
    let abc2 = or_map_merge(a, bc);
    assert forall|k: Seq<char>| true implies #[trigger] merged_tomb(ab, c, k) == merged_tomb(
        a,
        bc,
        k,
    ) by {
        if a.tombstones.contains_key(k) || b.tombstones.contains_key(k)
            || c.tombstones.contains_key(k) {
            if a.tombstones.contains_key(k) && b.tombstones.contains_key(k) {
                crate::hlc::lemma_ts_total(a.tombstones[k], b.tombstones[k]);
            }
            if b.tombstones.contains_key(k) && c.tombstones.contains_key(k) {
                crate::hlc::lemma_ts_total(b.tombstones[k], c.tombstones[k]);
            }
            if a.tombstones.contains_key(k) && c.tombstones.contains_key(k) {
                crate::hlc::lemma_ts_total(a.tombstones[k], c.tombstones[k]);
            }
        }
    }
    assert(abc1.tombstones =~= abc2.tombstones);
    assert forall|k: Seq<char>| true implies (#[trigger] abc1.entries.contains_key(k)
        == abc2.entries.contains_key(k) && (abc1.entries.contains_key(k)
        ==> abc1.entries[k].reg == abc2.entries[k].reg)) by {
        lemma_merge_entry_assoc_pointwise(a, b, c, k);
    }
    assert(live_view(abc1) =~= live_view(abc2));
}

/// The pointwise case analysis behind live associativity.
#[verifier::spinoff_prover]
proof fn lemma_merge_entry_assoc_pointwise(a: OrMapView, b: OrMapView, c: OrMapView, k: Seq<char>)
    ensures
        merged_entry(or_map_merge(a, b), c, k) is Some == merged_entry(
            a,
            or_map_merge(b, c),
            k,
        ) is Some,
        merged_entry(or_map_merge(a, b), c, k) matches Some(e1) ==> (merged_entry(
            a,
            or_map_merge(b, c),
            k,
        ) matches Some(e2) && e1.reg == e2.reg),
{
    let ab = or_map_merge(a, b);
    let bc = or_map_merge(b, c);
    if a.tombstones.contains_key(k) && b.tombstones.contains_key(k) {
        crate::hlc::lemma_ts_total(a.tombstones[k], b.tombstones[k]);
    }
    if b.tombstones.contains_key(k) && c.tombstones.contains_key(k) {
        crate::hlc::lemma_ts_total(b.tombstones[k], c.tombstones[k]);
    }
    if a.tombstones.contains_key(k) && c.tombstones.contains_key(k) {
        crate::hlc::lemma_ts_total(a.tombstones[k], c.tombstones[k]);
    }
    if a.entries.contains_key(k) && b.entries.contains_key(k) {
        crate::hlc::lemma_ts_total(a.entries[k].reg.timestamp, b.entries[k].reg.timestamp);
    }
    if b.entries.contains_key(k) && c.entries.contains_key(k) {
        crate::hlc::lemma_ts_total(b.entries[k].reg.timestamp, c.entries[k].reg.timestamp);
    }
    if a.entries.contains_key(k) && c.entries.contains_key(k) {
        crate::hlc::lemma_ts_total(a.entries[k].reg.timestamp, c.entries[k].reg.timestamp);
    }
}


/// One map operation: a stamped write or a stamped removal.
pub enum MapOp {
    Insert(Seq<char>, JsonView, Timestamp),
    Remove(Seq<char>, Timestamp),
}

/// The key an operation touches.
pub open spec fn op_key(op: MapOp) -> Seq<char> {
    match op {
        MapOp::Insert(k, _, _) => k,
        MapOp::Remove(k, _) => k,
    }
}

/// The stamp an operation carries.
pub open spec fn op_stamp(op: MapOp) -> Timestamp {
    match op {
        MapOp::Insert(_, _, t) => t,
        MapOp::Remove(_, t) => t,
    }
}

/// The state after one operation.
pub open spec fn apply_op(m: OrMapView, op: MapOp) -> OrMapView {
    match op {
        MapOp::Insert(k, v, t) => or_map_insert(m, k, v, t),
        MapOp::Remove(k, t) => or_map_remove(m, k, t),
    }
}

/// Tombstone safety, one exchange at a time: from any state, two
/// operations with distinct stamps reach the same live state whichever of
/// the two applies first. The tombstones and creation stamps may differ in
/// form between the two orders; what `get` sees does not.
#[verifier::rlimit(100)]
#[verifier::spinoff_prover]
pub proof fn lemma_ops_commute_live(m: OrMapView, x: MapOp, y: MapOp)
    requires
        op_key(x) == op_key(y) ==> op_stamp(x) != op_stamp(y),
    ensures
        live_view(apply_op(apply_op(m, x), y)) == live_view(apply_op(apply_op(m, y), x)),
{
    let k1 = op_key(x);
    let k2 = op_key(y);
    let t1 = op_stamp(x);
    let t2 = op_stamp(y);
    lemma_ts_total_pair(t1, t2);
    assert forall|k: Seq<char>| true implies #[trigger] live_view(
        apply_op(apply_op(m, x), y),
    ).contains_key(k) == live_view(apply_op(apply_op(m, y), x)).contains_key(k) && (live_view(
        apply_op(apply_op(m, x), y),
    ).contains_key(k) ==> live_view(apply_op(apply_op(m, x), y))[k] == live_view(
        apply_op(apply_op(m, y), x),
    )[k]) by {
        if m.tombstones.contains_key(k) && m.entries.contains_key(k) {
            lemma_ts_total_pair(m.tombstones[k], m.entries[k].reg.timestamp);
        }
        if m.tombstones.contains_key(k) {
            lemma_ts_total_pair(m.tombstones[k], t1);
            lemma_ts_total_pair(m.tombstones[k], t2);
        }
        if m.entries.contains_key(k) {
            lemma_ts_total_pair(m.entries[k].reg.timestamp, t1);
            lemma_ts_total_pair(m.entries[k].reg.timestamp, t2);
        }
    }
    assert(live_view(apply_op(apply_op(m, x), y)) =~= live_view(apply_op(apply_op(m, y), x)));
}

/// Totality facts for one pair of stamps.
proof fn lemma_ts_total_pair(a: Timestamp, b: Timestamp)
    ensures
        ts_lt(a, b) || ts_lt(b, a) || a == b,
        !(ts_lt(a, b) && ts_lt(b, a)),
        ts_le(a, b) <==> !ts_lt(b, a),
{
    crate::hlc::lemma_ts_total(a, b);
}


/// Every stamp the state holds — live writes and tombstones — is at or
/// below `t`, except stamps at the representation ceiling, which no
/// ordinary clock state can dominate.
pub open spec fn stamps_at_or_below(m: OrMapView, t: Timestamp) -> bool {
    &&& forall|k: Seq<char>|
        #[trigger] m.entries.contains_key(k) ==> ts_le(m.entries[k].reg.timestamp, t)
            || ts_ceiling(m.entries[k].reg.timestamp)
    &&& forall|k: Seq<char>|
        #[trigger] m.tombstones.contains_key(k) ==> ts_le(m.tombstones[k], t) || ts_ceiling(
            m.tombstones[k],
        )
}

/// Raising the bound keeps dominance.
pub proof fn lemma_stamps_monotone(m: OrMapView, t1: Timestamp, t2: Timestamp)
    requires
        stamps_at_or_below(m, t1),
        ts_le(t1, t2),
    ensures
        stamps_at_or_below(m, t2),
{
}

/// An insert stamped at or below the bound keeps dominance.
pub proof fn lemma_insert_keeps_stamps(
    m: OrMapView,
    k: Seq<char>,
    v: JsonView,
    ts: Timestamp,
    t: Timestamp,
)
    requires
        stamps_at_or_below(m, t),
        ts_le(ts, t) || ts_ceiling(ts),
    ensures
        stamps_at_or_below(or_map_insert(m, k, v, ts), t),
{
}

/// A removal stamped at or below the bound keeps dominance.
pub proof fn lemma_remove_keeps_stamps(m: OrMapView, k: Seq<char>, ts: Timestamp, t: Timestamp)
    requires
        stamps_at_or_below(m, t),
        ts_le(ts, t) || ts_ceiling(ts),
    ensures
        stamps_at_or_below(or_map_remove(m, k, ts), t),
{
}

/// A delta whose stamps are all at or below the bound keeps dominance.
pub proof fn lemma_delta_apply_keeps_stamps(d: DeltaView, m: OrMapView, t: Timestamp)
    requires
        stamps_at_or_below(m, t),
        forall|i: int|
            0 <= i < d.inserts.len() ==> ts_le(#[trigger] d.inserts[i].2, t) || ts_ceiling(
                d.inserts[i].2,
            ),
        forall|i: int|
            0 <= i < d.removes.len() ==> ts_le(#[trigger] d.removes[i].1, t) || ts_ceiling(
                d.removes[i].1,
            ),
    ensures
        stamps_at_or_below(delta_apply(d, m), t),
{
    lemma_apply_inserts_keeps_stamps(m, d.inserts, t);
    lemma_apply_removes_keeps_stamps(apply_inserts(m, d.inserts), d.removes, t);
}

proof fn lemma_apply_inserts_keeps_stamps(
    m: OrMapView,
    ins: Seq<(Seq<char>, JsonView, Timestamp)>,
    t: Timestamp,
)
    requires
        stamps_at_or_below(m, t),
        forall|i: int|
            0 <= i < ins.len() ==> ts_le(#[trigger] ins[i].2, t) || ts_ceiling(ins[i].2),
    ensures
        stamps_at_or_below(apply_inserts(m, ins), t),
    decreases ins.len(),
{
    if ins.len() > 0 {
        assert forall|i: int|
            0 <= i < ins.drop_last().len() implies ts_le(#[trigger] ins.drop_last()[i].2, t)
            || ts_ceiling(ins.drop_last()[i].2) by {
            assert(ins.drop_last()[i] == ins[i]);
        }
        lemma_apply_inserts_keeps_stamps(m, ins.drop_last(), t);
        lemma_insert_keeps_stamps(
            apply_inserts(m, ins.drop_last()),
            ins.last().0,
            ins.last().1,
            ins.last().2,
            t,
        );
    }
}

proof fn lemma_apply_removes_keeps_stamps(
    m: OrMapView,
    rem: Seq<(Seq<char>, Timestamp)>,
    t: Timestamp,
)
    requires
        stamps_at_or_below(m, t),
        forall|i: int|
            0 <= i < rem.len() ==> ts_le(#[trigger] rem[i].1, t) || ts_ceiling(rem[i].1),
    ensures
        stamps_at_or_below(apply_removes(m, rem), t),
    decreases rem.len(),
{
    if rem.len() > 0 {
        assert forall|i: int|
            0 <= i < rem.drop_last().len() implies ts_le(#[trigger] rem.drop_last()[i].1, t)
            || ts_ceiling(rem.drop_last()[i].1) by {
            assert(rem.drop_last()[i] == rem[i]);
        }
        lemma_apply_removes_keeps_stamps(m, rem.drop_last(), t);
        lemma_remove_keeps_stamps(
            apply_removes(m, rem.drop_last()),
            rem.last().0,
            rem.last().1,
            t,
        );
    }
}

/// Merging two dominated states keeps dominance.
pub proof fn lemma_merge_keeps_stamps(a: OrMapView, b: OrMapView, t: Timestamp)
    requires
        stamps_at_or_below(a, t),
        stamps_at_or_below(b, t),
    ensures
        stamps_at_or_below(or_map_merge(a, b), t),
{
    let m = or_map_merge(a, b);
    assert forall|k: Seq<char>| #[trigger] m.entries.contains_key(k) implies ts_le(
        m.entries[k].reg.timestamp,
        t,
    ) || ts_ceiling(m.entries[k].reg.timestamp) by {
    }
    assert forall|k: Seq<char>| #[trigger] m.tombstones.contains_key(k) implies ts_le(
        m.tombstones[k],
        t,
    ) || ts_ceiling(m.tombstones[k]) by {
    }
}

} // verus!
