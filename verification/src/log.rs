//! The durable log's logic: the append-only delta log with its uniqueness
//! key and ascending order, the latest snapshot per document, and peer
//! progress. The store that persists these rows wraps this model and
//! mirrors its behaviour.

use vstd::prelude::*;
use crate::assoc::{
    assoc_find, assoc_keys_unique, assoc_view, lemma_assoc_view_contains, lemma_assoc_view_index,
    lemma_assoc_view_push, lemma_assoc_view_update,
};
use vstd::multiset::Multiset;
use crate::strutil::str_eq;

verus! {

/// The mathematical form of one delta row.
#[verifier::ext_equal]
pub struct DeltaRowView {
    pub doc_id: Seq<char>,
    pub delta_id: Seq<u8>,
    pub delta_bytes: Seq<u8>,
    pub actor_id: Seq<char>,
    pub hlc_ts: u64,
}

/// One row of the delta log.
#[derive(Debug, PartialEq, Eq)]
pub struct DeltaRow {
    /// Document identifier
    pub doc_id: String,
    /// Delta identifier: the stamping timestamp's wire form
    pub delta_id: Vec<u8>,
    /// The encoded delta
    pub delta_bytes: Vec<u8>,
    /// The stamping actor
    pub actor_id: String,
    /// The stamping timestamp's physical milliseconds
    pub hlc_ts: u64,
}

impl View for DeltaRow {
    type V = DeltaRowView;

    open spec fn view(&self) -> DeltaRowView {
        DeltaRowView {
            doc_id: self.doc_id@,
            delta_id: self.delta_id@,
            delta_bytes: self.delta_bytes@,
            actor_id: self.actor_id@,
            hlc_ts: self.hlc_ts,
        }
    }
}

/// A latest snapshot of one document's state.
#[derive(Debug, PartialEq, Eq)]
pub struct SnapshotRow {
    /// The encoded state
    pub snapshot_bytes: Vec<u8>,
    /// The encoded clock
    pub snapshot_clock: Vec<u8>,
}

/// The mathematical form of a snapshot row.
#[verifier::ext_equal]
pub struct SnapshotRowView {
    pub snapshot_bytes: Seq<u8>,
    pub snapshot_clock: Seq<u8>,
}

impl View for SnapshotRow {
    type V = SnapshotRowView;

    open spec fn view(&self) -> SnapshotRowView {
        SnapshotRowView {
            snapshot_bytes: self.snapshot_bytes@,
            snapshot_clock: self.snapshot_clock@,
        }
    }
}

/// Errors of the durable log.
#[derive(Debug, Clone, Copy, PartialEq, Eq, Structural)]
pub enum LogError {
    /// The timestamp exceeds what the storage integer can carry
    TimestampOverflow,
}

impl LogError {
    /// A human-readable rendering of the error.
    pub fn message(&self) -> (r: &'static str) {
        match self {
            LogError::TimestampOverflow => "timestamp exceeds the storage range",
        }
    }
}

/// Whether two rows collide on the uniqueness key (doc_id, delta_id).
pub open spec fn same_key(a: DeltaRowView, b: DeltaRowView) -> bool {
    a.doc_id == b.doc_id && a.delta_id == b.delta_id
}

/// No two rows share the key, and rows are ascending in their stamp.
pub open spec fn rows_wf(s: Seq<DeltaRowView>) -> bool {
    &&& forall|i: int, j: int| 0 <= i < j < s.len() ==> !same_key(#[trigger] s[i], #[trigger] s[j])
    &&& forall|i: int, j: int| 0 <= i < j < s.len() ==> #[trigger] s[i].hlc_ts <= #[trigger] s[j].hlc_ts
}

/// The first position whose stamp is strictly above `t`; the row count when
/// none is.
pub open spec fn first_above(s: Seq<DeltaRowView>, t: u64) -> int
    decreases s.len(),
{
    if s.len() == 0 {
        0
    } else if s[0].hlc_ts > t {
        0
    } else {
        1 + first_above(s.drop_first(), t)
    }
}

/// A row sequence with every row of one key gone.
pub open spec fn remove_key(s: Seq<DeltaRowView>, k: DeltaRowView) -> Seq<DeltaRowView>
    decreases s.len(),
{
    if s.len() == 0 {
        s
    } else if same_key(s[0], k) {
        remove_key(s.drop_first(), k)
    } else {
        seq![s[0]] + remove_key(s.drop_first(), k)
    }
}

/// The payloads of the rows of one document stamped strictly after `t`, in
/// row order.
pub open spec fn deltas_after(s: Seq<DeltaRowView>, doc: Seq<char>, t: u64) -> Seq<Seq<u8>>
    decreases s.len(),
{
    if s.len() == 0 {
        Seq::empty()
    } else if s[0].doc_id == doc && s[0].hlc_ts > t {
        seq![s[0].delta_bytes] + deltas_after(s.drop_first(), doc, t)
    } else {
        deltas_after(s.drop_first(), doc, t)
    }
}

/// The rows of one document stamped before `t` are gone after compaction.
pub open spec fn compact_before(s: Seq<DeltaRowView>, doc: Seq<char>, t: u64) -> Seq<DeltaRowView>
    decreases s.len(),
{
    if s.len() == 0 {
        s
    } else if s[0].doc_id == doc && s[0].hlc_ts < t {
        compact_before(s.drop_first(), doc, t)
    } else {
        seq![s[0]] + compact_before(s.drop_first(), doc, t)
    }
}

/// The durable log's in-memory model: the delta rows in ascending stamp
/// order, the latest snapshot per document, and each peer's progress.
#[derive(Debug)]
pub struct DeltaLog {
    rows: Vec<DeltaRow>,
    snapshots: Vec<(String, SnapshotRow)>,
    progress: Vec<(String, Vec<u8>)>,
}

impl DeltaLog {
    /// The delta rows, as their views.
    pub closed spec fn rows_view(&self) -> Seq<DeltaRowView> {
        self.rows@.map_values(|r: DeltaRow| r@)
    }

    /// The latest snapshots, keyed by document id.
    pub closed spec fn snapshots_view(&self) -> Map<Seq<char>, SnapshotRowView> {
        assoc_view(self.snapshots@)
    }

    /// Peer progress, keyed by the joined peer and document key.
    pub closed spec fn progress_view(&self) -> Map<Seq<char>, Seq<u8>> {
        assoc_view(self.progress@)
    }

    /// The representation invariant.
    pub closed spec fn inv(&self) -> bool {
        rows_wf(self.rows_view()) && assoc_keys_unique(self.snapshots@) && assoc_keys_unique(
            self.progress@,
        )
    }

    /// A new empty log.
    pub fn in_memory() -> (r: DeltaLog)
        ensures
            r.inv(),
            r.rows_view() == Seq::<DeltaRowView>::empty(),
            r.snapshots_view() == Map::<Seq<char>, SnapshotRowView>::empty(),
            r.progress_view() == Map::<Seq<char>, Seq<u8>>::empty(),
    {
        let r = DeltaLog { rows: Vec::new(), snapshots: Vec::new(), progress: Vec::new() };
        proof {
            assert(r.rows_view() =~= Seq::<DeltaRowView>::empty());
        }
        r
    }

    /// Save a delta row. Saving is idempotent in the uniqueness key: a row
    /// with the same (doc_id, delta_id) is replaced, not duplicated. A
    /// stamp beyond the signed storage range fails the save and changes
    /// nothing.
    pub fn save_delta(&mut self, row: DeltaRow) -> (r: Result<(), LogError>)
        requires
            old(self).inv(),
        ensures
            final(self).inv(),
            row@.hlc_ts > i64::MAX as u64 ==> r == Result::<(), LogError>::Err(
                LogError::TimestampOverflow,
            ) && *final(self) == *old(self),
            row@.hlc_ts <= i64::MAX as u64 ==> r == Result::<(), LogError>::Ok(())
                && final(self).rows_view() == {
                let cleaned = remove_key(old(self).rows_view(), row@);
                cleaned.insert(first_above(cleaned, row@.hlc_ts), row@)
            },
            final(self).snapshots_view() == old(self).snapshots_view(),
            final(self).progress_view() == old(self).progress_view(),
    {
        if row.hlc_ts > i64::MAX as u64 {
            return Err(LogError::TimestampOverflow);
        }
        let ghost orig = self.rows_view();
        // Drop any row with the same key.
        let mut kept: Vec<DeltaRow> = Vec::new();
        let n = self.rows.len();
        let mut i: usize = 0;
        while i < n
            invariant
                n == self.rows@.len(),
                i <= n,
                orig == self.rows@.map_values(|r: DeltaRow| r@),
                kept@.map_values(|r: DeltaRow| r@) == remove_key(orig.take(i as int), row@),
            decreases n - i,
        {
            let is_same = str_eq(self.rows[i].doc_id.as_str(), row.doc_id.as_str())
                && eq_bytes(&self.rows[i].delta_id, &row.delta_id);
            let ghost pre = kept@;
            if !is_same {
                let copy = DeltaRow {
                    doc_id: self.rows[i].doc_id.clone(),
                    delta_id: self.rows[i].delta_id.clone(),
                    delta_bytes: self.rows[i].delta_bytes.clone(),
                    actor_id: self.rows[i].actor_id.clone(),
                    hlc_ts: self.rows[i].hlc_ts,
                };
                kept.push(copy);
            }
            i += 1;
            proof {
                lemma_remove_key_snoc(orig.take(i - 1), orig[i - 1], row@);
                assert(orig.take(i as int) =~= orig.take(i - 1).push(orig[i - 1]));
                if is_same {
                    assert(same_key(orig[i - 1], row@));
                } else {
                    assert(!same_key(orig[i - 1], row@));
                    assert(kept@.map_values(|r: DeltaRow| r@) =~= pre.map_values(
                        |r: DeltaRow| r@,
                    ).push(orig[i - 1]));
                }
                assert(kept@.map_values(|r: DeltaRow| r@) =~= remove_key(
                    orig.take(i as int),
                    row@,
                ));
            }
        }
        proof {
            assert(orig.take(n as int) =~= orig);
        }
        let ghost cleaned = kept@.map_values(|r: DeltaRow| r@);
        // Find the ascending position.
        let m = kept.len();
        let mut pos: usize = 0;
        while pos < m && kept[pos].hlc_ts <= row.hlc_ts
            invariant
                m == kept@.len(),
                cleaned == kept@.map_values(|r: DeltaRow| r@),
                pos <= m,
                forall|k: int| 0 <= k < pos ==> cleaned[k].hlc_ts <= row@.hlc_ts,
            decreases m - pos,
        {
            pos += 1;
        }
        proof {
            lemma_remove_key_wf(orig, row@);
            if pos < m {
                assert(cleaned[pos as int].hlc_ts > row@.hlc_ts);
            }
            lemma_first_above_at(cleaned, row@.hlc_ts, pos as int);
        }
        kept.insert(pos, row);
        self.rows = kept;
        proof {
            assert(self.rows_view() =~= cleaned.insert(pos as int, row@));
            lemma_remove_key_wf(orig, row@);
            lemma_insert_sorted_wf(cleaned, row@, pos as int);
        }
        Ok(())
    }

    /// The payloads of a document's rows stamped strictly after `t`, in
    /// ascending stamp order.
    pub fn get_deltas_after(&self, doc_id: &str, after_ts: u64) -> (r: Vec<Vec<u8>>)
        requires
            self.inv(),
        ensures
            r@.map_values(|p: Vec<u8>| p@) == deltas_after(self.rows_view(), doc_id@, after_ts),
    {
        let ghost rows = self.rows_view();
        let n = self.rows.len();
        let mut r: Vec<Vec<u8>> = Vec::new();
        let mut i: usize = 0;
        proof {
            assert(rows.take(0) =~= Seq::<DeltaRowView>::empty());
        }
        while i < n
            invariant
                n == self.rows@.len(),
                rows == self.rows@.map_values(|r: DeltaRow| r@),
                i <= n,
                r@.map_values(|p: Vec<u8>| p@) == deltas_after(rows.take(i as int), doc_id@, after_ts),
            decreases n - i,
        {
            let ghost pre = r@;
            if str_eq(self.rows[i].doc_id.as_str(), doc_id) && self.rows[i].hlc_ts > after_ts {
                r.push(self.rows[i].delta_bytes.clone());
            }
            i += 1;
            proof {
                lemma_deltas_after_snoc(rows.take(i - 1), rows[i - 1], doc_id@, after_ts);
                assert(rows.take(i as int) =~= rows.take(i - 1).push(rows[i - 1]));
                if rows[i - 1].doc_id == doc_id@ && rows[i - 1].hlc_ts > after_ts {
                    assert(r@.map_values(|p: Vec<u8>| p@) =~= pre.map_values(|p: Vec<u8>| p@).push(
                        rows[i - 1].delta_bytes,
                    ));
                }
                assert(r@.map_values(|p: Vec<u8>| p@) =~= deltas_after(
                    rows.take(i as int),
                    doc_id@,
                    after_ts,
                ));
            }
        }
        proof {
            assert(rows.take(n as int) =~= rows);
        }
        r
    }

    /// Delete a document's rows stamped strictly before `t`. The caller
    /// must hold a snapshot at or past `t`, or the dropped rows are lost.
    /// Returns how many rows went.
    pub fn compact_deltas_before(&mut self, doc_id: &str, before_ts: u64) -> (r: usize)
        requires
            old(self).inv(),
        ensures
            final(self).inv(),
            final(self).rows_view() == compact_before(old(self).rows_view(), doc_id@, before_ts),
            r == old(self).rows_view().len() - final(self).rows_view().len(),
            final(self).snapshots_view() == old(self).snapshots_view(),
            final(self).progress_view() == old(self).progress_view(),
    {
        let ghost orig = self.rows_view();
        let mut kept: Vec<DeltaRow> = Vec::new();
        let n = self.rows.len();
        let mut i: usize = 0;
        while i < n
            invariant
                n == self.rows@.len(),
                orig == self.rows@.map_values(|r: DeltaRow| r@),
                i <= n,
                kept@.map_values(|r: DeltaRow| r@) == compact_before(
                    orig.take(i as int),
                    doc_id@,
                    before_ts,
                ),
            decreases n - i,
        {
            let ghost pre = kept@;
            let drop_row = str_eq(self.rows[i].doc_id.as_str(), doc_id) && self.rows[i].hlc_ts
                < before_ts;
            if !drop_row {
                let copy = DeltaRow {
                    doc_id: self.rows[i].doc_id.clone(),
                    delta_id: self.rows[i].delta_id.clone(),
                    delta_bytes: self.rows[i].delta_bytes.clone(),
                    actor_id: self.rows[i].actor_id.clone(),
                    hlc_ts: self.rows[i].hlc_ts,
                };
                kept.push(copy);
            }
            i += 1;
            proof {
                lemma_compact_snoc(orig.take(i - 1), orig[i - 1], doc_id@, before_ts);
                assert(orig.take(i as int) =~= orig.take(i - 1).push(orig[i - 1]));
                if !(orig[i - 1].doc_id == doc_id@ && orig[i - 1].hlc_ts < before_ts) {
                    assert(kept@.map_values(|r: DeltaRow| r@) =~= pre.map_values(
                        |r: DeltaRow| r@,
                    ).push(orig[i - 1]));
                }
                assert(kept@.map_values(|r: DeltaRow| r@) =~= compact_before(
                    orig.take(i as int),
                    doc_id@,
                    before_ts,
                ));
            }
        }
        proof {
            assert(orig.take(n as int) =~= orig);
            lemma_compact_wf(orig, doc_id@, before_ts);
            lemma_compact_len(orig, doc_id@, before_ts);
        }
        let removed = self.rows.len() - kept.len();
        self.rows = kept;
        removed
    }

    /// Store the latest snapshot of a document, replacing any earlier one.
    pub fn save_snapshot(&mut self, doc_id: &str, snapshot_bytes: Vec<u8>, clock_bytes: Vec<u8>)
        requires
            old(self).inv(),
        ensures
            final(self).inv(),
            final(self).snapshots_view() == old(self).snapshots_view().insert(
                doc_id@,
                SnapshotRowView { snapshot_bytes: snapshot_bytes@, snapshot_clock: clock_bytes@ },
            ),
            final(self).rows_view() == old(self).rows_view(),
            final(self).progress_view() == old(self).progress_view(),
    {
        let row = SnapshotRow { snapshot_bytes, snapshot_clock: clock_bytes };
        proof {
            lemma_assoc_view_contains(self.snapshots@, doc_id@);
        }
        match assoc_find(&self.snapshots, doc_id) {
            Some(i) => {
                proof {
                    lemma_assoc_view_index(self.snapshots@, i as int);
                }
                let ghost snaps0 = self.snapshots@;
                let mut p = self.snapshots.remove(i);
                p.1 = row;
                self.snapshots.insert(i, p);
                proof {
                    assert(self.snapshots@ =~= snaps0.update(i as int, self.snapshots@[i as int]));
                    lemma_assoc_view_update(snaps0, i as int, self.snapshots@[i as int]);
                }
            },
            None => {
                let pair = (doc_id.to_owned(), row);
                proof {
                    lemma_assoc_view_push(self.snapshots@, pair);
                }
                self.snapshots.push(pair);
            },
        }
    }

    /// The latest snapshot of a document, if one is stored.
    pub fn get_snapshot(&self, doc_id: &str) -> (r: Option<(Vec<u8>, Vec<u8>)>)
        requires
            self.inv(),
        ensures
            r matches Some(p) ==> self.snapshots_view().contains_key(doc_id@)
                && self.snapshots_view()[doc_id@] == (SnapshotRowView {
                snapshot_bytes: p.0@,
                snapshot_clock: p.1@,
            }),
            r is None ==> !self.snapshots_view().contains_key(doc_id@),
    {
        proof {
            lemma_assoc_view_contains(self.snapshots@, doc_id@);
        }
        match assoc_find(&self.snapshots, doc_id) {
            Some(i) => {
                proof {
                    lemma_assoc_view_index(self.snapshots@, i as int);
                }
                Some(
                    (
                        self.snapshots[i].1.snapshot_bytes.clone(),
                        self.snapshots[i].1.snapshot_clock.clone(),
                    ),
                )
            },
            None => None,
        }
    }

    /// Record a peer's acknowledged position for a document, replacing any
    /// earlier record. The peer and document ids combine into one key.
    pub fn update_peer_progress(&mut self, peer_doc_key: &str, last_delta_id: Vec<u8>)
        requires
            old(self).inv(),
        ensures
            final(self).inv(),
            final(self).progress_view() == old(self).progress_view().insert(
                peer_doc_key@,
                last_delta_id@,
            ),
            final(self).rows_view() == old(self).rows_view(),
            final(self).snapshots_view() == old(self).snapshots_view(),
    {
        proof {
            lemma_assoc_view_contains(self.progress@, peer_doc_key@);
        }
        match assoc_find(&self.progress, peer_doc_key) {
            Some(i) => {
                proof {
                    lemma_assoc_view_index(self.progress@, i as int);
                }
                let ghost prog0 = self.progress@;
                let mut p = self.progress.remove(i);
                p.1 = last_delta_id;
                self.progress.insert(i, p);
                proof {
                    assert(self.progress@ =~= prog0.update(i as int, self.progress@[i as int]));
                    lemma_assoc_view_update(prog0, i as int, self.progress@[i as int]);
                }
            },
            None => {
                let pair = (peer_doc_key.to_owned(), last_delta_id);
                proof {
                    lemma_assoc_view_push(self.progress@, pair);
                }
                self.progress.push(pair);
            },
        }
    }
}

/// Byte vector equality.
fn eq_bytes(a: &Vec<u8>, b: &Vec<u8>) -> (r: bool)
    ensures
        r == (a@ == b@),
{
    if a.len() != b.len() {
        proof {
            assert(a@ != b@);
        }
        return false;
    }
    let n = a.len();
    let mut i: usize = 0;
    while i < n
        invariant
            n == a@.len() == b@.len(),
            i <= n,
            forall|k: int| 0 <= k < i ==> a@[k] == b@[k],
        decreases n - i,
    {
        if a[i] != b[i] {
            return false;
        }
        i += 1;
    }
    proof {
        assert(a@ =~= b@);
    }
    true
}

proof fn lemma_remove_key_snoc(s: Seq<DeltaRowView>, x: DeltaRowView, k: DeltaRowView)
    ensures
        same_key(x, k) ==> remove_key(s.push(x), k) == remove_key(s, k),
        !same_key(x, k) ==> remove_key(s.push(x), k) == remove_key(s, k).push(x),
    decreases s.len(),
{
    reveal_with_fuel(remove_key, 3);
    if s.len() == 0 {
        assert(s.push(x)[0] == x);
        assert(s.push(x).drop_first() =~= Seq::<DeltaRowView>::empty());
        if !same_key(x, k) {
            assert(remove_key(s.push(x), k) =~= remove_key(s, k).push(x));
        }
    } else {
        assert(s.push(x)[0] == s[0]);
        assert(s.push(x).drop_first() =~= s.drop_first().push(x));
        lemma_remove_key_snoc(s.drop_first(), x, k);
        if same_key(x, k) {
            assert(remove_key(s.push(x), k) =~= remove_key(s, k));
        } else {
            assert(remove_key(s.push(x), k) =~= remove_key(s, k).push(x));
        }
    }
}

proof fn lemma_deltas_after_snoc(s: Seq<DeltaRowView>, x: DeltaRowView, doc: Seq<char>, t: u64)
    ensures
        (x.doc_id == doc && x.hlc_ts > t) ==> deltas_after(s.push(x), doc, t) == deltas_after(
            s,
            doc,
            t,
        ).push(x.delta_bytes),
        !(x.doc_id == doc && x.hlc_ts > t) ==> deltas_after(s.push(x), doc, t) == deltas_after(
            s,
            doc,
            t,
        ),
    decreases s.len(),
{
    reveal_with_fuel(deltas_after, 3);
    if s.len() == 0 {
        assert(s.push(x)[0] == x);
        assert(s.push(x).drop_first() =~= Seq::<DeltaRowView>::empty());
        if x.doc_id == doc && x.hlc_ts > t {
            assert(deltas_after(s.push(x), doc, t) =~= deltas_after(s, doc, t).push(
                x.delta_bytes,
            ));
        }
    } else {
        assert(s.push(x)[0] == s[0]);
        assert(s.push(x).drop_first() =~= s.drop_first().push(x));
        lemma_deltas_after_snoc(s.drop_first(), x, doc, t);
        if x.doc_id == doc && x.hlc_ts > t {
            assert(deltas_after(s.push(x), doc, t) =~= deltas_after(s, doc, t).push(
                x.delta_bytes,
            ));
        } else {
            assert(deltas_after(s.push(x), doc, t) =~= deltas_after(s, doc, t));
        }
    }
}

proof fn lemma_compact_snoc(s: Seq<DeltaRowView>, x: DeltaRowView, doc: Seq<char>, t: u64)
    ensures
        (x.doc_id == doc && x.hlc_ts < t) ==> compact_before(s.push(x), doc, t) == compact_before(
            s,
            doc,
            t,
        ),
        !(x.doc_id == doc && x.hlc_ts < t) ==> compact_before(s.push(x), doc, t)
            == compact_before(s, doc, t).push(x),
    decreases s.len(),
{
    reveal_with_fuel(compact_before, 3);
    if s.len() == 0 {
        assert(s.push(x)[0] == x);
        assert(s.push(x).drop_first() =~= Seq::<DeltaRowView>::empty());
        if !(x.doc_id == doc && x.hlc_ts < t) {
            assert(compact_before(s.push(x), doc, t) =~= compact_before(s, doc, t).push(x));
        }
    } else {
        assert(s.push(x)[0] == s[0]);
        assert(s.push(x).drop_first() =~= s.drop_first().push(x));
        lemma_compact_snoc(s.drop_first(), x, doc, t);
        if x.doc_id == doc && x.hlc_ts < t {
            assert(compact_before(s.push(x), doc, t) =~= compact_before(s, doc, t));
        } else {
            assert(compact_before(s.push(x), doc, t) =~= compact_before(s, doc, t).push(x));
        }
    }
}

/// Removing a key keeps well-formedness and leaves a subsequence.
proof fn lemma_remove_key_wf(s: Seq<DeltaRowView>, k: DeltaRowView)
    requires
        rows_wf(s),
    ensures
        rows_wf(remove_key(s, k)),
        forall|i: int|
            0 <= i < remove_key(s, k).len() ==> !same_key(#[trigger] remove_key(s, k)[i], k),
        forall|i: int|
            0 <= i < remove_key(s, k).len() ==> exists|j: int|
                0 <= j < s.len() && s[j] == #[trigger] remove_key(s, k)[i],
    decreases s.len(),
{
    reveal_with_fuel(remove_key, 2);
    if s.len() > 0 {
        assert forall|i: int, j: int|
            0 <= i < j < s.drop_first().len() implies !same_key(
            #[trigger] s.drop_first()[i],
            #[trigger] s.drop_first()[j],
        ) && s.drop_first()[i].hlc_ts <= s.drop_first()[j].hlc_ts by {
            assert(s.drop_first()[i] == s[i + 1]);
            assert(s.drop_first()[j] == s[j + 1]);
        }
        lemma_remove_key_wf(s.drop_first(), k);
        let r = remove_key(s, k);
        let rd = remove_key(s.drop_first(), k);
        if same_key(s[0], k) {
            assert forall|i: int|
                0 <= i < r.len() implies exists|j: int| 0 <= j < s.len() && s[j] == #[trigger] r[i] by {
                let j0 = choose|j: int| 0 <= j < s.drop_first().len() && s.drop_first()[j] == rd[i];
                assert(s[j0 + 1] == r[i]);
            }
        } else {
            assert(r =~= seq![s[0]] + rd);
            assert forall|i: int, j: int| 0 <= i < j < r.len() implies !same_key(
                #[trigger] r[i],
                #[trigger] r[j],
            ) && r[i].hlc_ts <= r[j].hlc_ts by {
                if i == 0 {
                    let j0 = choose|jj: int|
                        0 <= jj < s.drop_first().len() && s.drop_first()[jj] == rd[j - 1];
                    assert(s[j0 + 1] == r[j]);
                } else {
                    assert(r[i] == rd[i - 1]);
                    assert(r[j] == rd[j - 1]);
                }
            }
            assert forall|i: int|
                0 <= i < r.len() implies exists|j: int| 0 <= j < s.len() && s[j] == #[trigger] r[i] by {
                if i > 0 {
                    let j0 = choose|jj: int|
                        0 <= jj < s.drop_first().len() && s.drop_first()[jj] == rd[i - 1];
                    assert(s[j0 + 1] == r[i]);
                } else {
                    assert(s[0] == r[0]);
                }
            }
        }
    }
}

/// The scan position is where the ascending insertion goes.
proof fn lemma_first_above_at(s: Seq<DeltaRowView>, t: u64, pos: int)
    requires
        0 <= pos <= s.len(),
        forall|k: int| 0 <= k < pos ==> s[k].hlc_ts <= t,
        pos < s.len() ==> s[pos].hlc_ts > t,
        rows_wf(s),
    ensures
        first_above(s, t) == pos,
    decreases s.len(),
{
    reveal_with_fuel(first_above, 2);
    if s.len() > 0 && s[0].hlc_ts <= t {
        assert forall|i: int, j: int|
            0 <= i < j < s.drop_first().len() implies !same_key(
            #[trigger] s.drop_first()[i],
            #[trigger] s.drop_first()[j],
        ) && s.drop_first()[i].hlc_ts <= s.drop_first()[j].hlc_ts by {
            assert(s.drop_first()[i] == s[i + 1]);
            assert(s.drop_first()[j] == s[j + 1]);
        }
        assert(pos > 0);
        assert forall|k: int| 0 <= k < pos - 1 implies s.drop_first()[k].hlc_ts <= t by {
            assert(s.drop_first()[k] == s[k + 1]);
        }
        assert(pos - 1 < s.drop_first().len() ==> s.drop_first()[pos - 1].hlc_ts > t);
        lemma_first_above_at(s.drop_first(), t, pos - 1);
    }
}

/// Inserting at the scan position keeps the rows well-formed.
proof fn lemma_insert_sorted_wf(s: Seq<DeltaRowView>, x: DeltaRowView, pos: int)
    requires
        rows_wf(s),
        0 <= pos <= s.len(),
        forall|k: int| 0 <= k < pos ==> s[k].hlc_ts <= x.hlc_ts,
        pos < s.len() ==> s[pos].hlc_ts > x.hlc_ts,
        forall|i: int| 0 <= i < s.len() ==> !same_key(#[trigger] s[i], x),
    ensures
        rows_wf(s.insert(pos, x)),
{
    let r = s.insert(pos, x);
    assert forall|i: int, j: int| 0 <= i < j < r.len() implies !same_key(
        #[trigger] r[i],
        #[trigger] r[j],
    ) && r[i].hlc_ts <= r[j].hlc_ts by {
        if i < pos {
            assert(r[i] == s[i]);
        } else if i == pos {
            assert(r[i] == x);
        } else {
            assert(r[i] == s[i - 1]);
        }
        if j < pos {
            assert(r[j] == s[j]);
        } else if j == pos {
            assert(r[j] == x);
        } else {
            assert(r[j] == s[j - 1]);
        }
    }
}

/// Compaction keeps well-formedness and drops exactly the old rows.
proof fn lemma_compact_wf(s: Seq<DeltaRowView>, doc: Seq<char>, t: u64)
    requires
        rows_wf(s),
    ensures
        rows_wf(compact_before(s, doc, t)),
        compact_before(s, doc, t).len() <= s.len(),
    decreases s.len(),
{
    reveal_with_fuel(compact_before, 2);
    if s.len() > 0 {
        assert forall|i: int, j: int|
            0 <= i < j < s.drop_first().len() implies !same_key(
            #[trigger] s.drop_first()[i],
            #[trigger] s.drop_first()[j],
        ) && s.drop_first()[i].hlc_ts <= s.drop_first()[j].hlc_ts by {
            assert(s.drop_first()[i] == s[i + 1]);
            assert(s.drop_first()[j] == s[j + 1]);
        }
        lemma_compact_wf(s.drop_first(), doc, t);
        let r = compact_before(s, doc, t);
        let rd = compact_before(s.drop_first(), doc, t);
        if !(s[0].doc_id == doc && s[0].hlc_ts < t) {
            assert(r =~= seq![s[0]] + rd);
            lemma_compact_membership(s.drop_first(), doc, t);
            assert forall|i: int, j: int| 0 <= i < j < r.len() implies !same_key(
                #[trigger] r[i],
                #[trigger] r[j],
            ) && r[i].hlc_ts <= r[j].hlc_ts by {
                if i == 0 {
                    let j0 = choose|jj: int|
                        0 <= jj < s.drop_first().len() && s.drop_first()[jj] == rd[j - 1];
                    assert(s[j0 + 1] == r[j]);
                } else {
                    assert(r[i] == rd[i - 1]);
                    assert(r[j] == rd[j - 1]);
                }
            }
        }
    }
}

/// Every compacted row is one of the original rows.
proof fn lemma_compact_membership(s: Seq<DeltaRowView>, doc: Seq<char>, t: u64)
    ensures
        forall|i: int|
            0 <= i < compact_before(s, doc, t).len() ==> exists|j: int|
                0 <= j < s.len() && s[j] == #[trigger] compact_before(s, doc, t)[i],
    decreases s.len(),
{
    reveal_with_fuel(compact_before, 2);
    if s.len() > 0 {
        lemma_compact_membership(s.drop_first(), doc, t);
        let r = compact_before(s, doc, t);
        let rd = compact_before(s.drop_first(), doc, t);
        if s[0].doc_id == doc && s[0].hlc_ts < t {
            assert forall|i: int|
                0 <= i < r.len() implies exists|j: int| 0 <= j < s.len() && s[j] == #[trigger] r[i] by {
                let j0 = choose|jj: int|
                    0 <= jj < s.drop_first().len() && s.drop_first()[jj] == rd[i];
                assert(s[j0 + 1] == r[i]);
            }
        } else {
            assert(r =~= seq![s[0]] + rd);
            assert forall|i: int|
                0 <= i < r.len() implies exists|j: int| 0 <= j < s.len() && s[j] == #[trigger] r[i] by {
                if i > 0 {
                    let j0 = choose|jj: int|
                        0 <= jj < s.drop_first().len() && s.drop_first()[jj] == rd[i - 1];
                    assert(s[j0 + 1] == r[i]);
                } else {
                    assert(s[0] == r[0]);
                }
            }
        }
    }
}

/// Compaction never grows the log.
proof fn lemma_compact_len(s: Seq<DeltaRowView>, doc: Seq<char>, t: u64)
    ensures
        compact_before(s, doc, t).len() <= s.len(),
    decreases s.len(),
{
    reveal_with_fuel(compact_before, 2);
    if s.len() > 0 {
        lemma_compact_len(s.drop_first(), doc, t);
    }
}

/// A log meeting its invariant holds well-formed rows: the fact a caller
/// needs to put a log's own rows into the row-level laws.
pub proof fn lemma_inv_rows_wf(log: &DeltaLog)
    requires
        log.inv(),
    ensures
        rows_wf(log.rows_view()),
{
}

/// The durable-idempotence law: saving a row and saving it again leave the
/// log exactly as one save does, so the uniqueness key holds one row.
pub proof fn lemma_save_idempotent(s: Seq<DeltaRowView>, row: DeltaRowView)
    requires
        rows_wf(s),
    ensures
        ({
            let once = remove_key(s, row).insert(first_above(remove_key(s, row), row.hlc_ts), row);
            let again = remove_key(once, row).insert(
                first_above(remove_key(once, row), row.hlc_ts),
                row,
            );
            again == once
        }),
{
    let cleaned = remove_key(s, row);
    lemma_remove_key_wf(s, row);
    lemma_first_above_props(cleaned, row.hlc_ts);
    let pos = first_above(cleaned, row.hlc_ts);
    let once = cleaned.insert(pos, row);
    lemma_remove_insert(cleaned, row, pos);
    assert(remove_key(once, row) == cleaned);
    assert(remove_key(once, row).insert(first_above(remove_key(once, row), row.hlc_ts), row)
        == once);
}

/// Removing the key of a freshly inserted row undoes the insertion, when
/// the key was absent before.
proof fn lemma_remove_insert(s: Seq<DeltaRowView>, x: DeltaRowView, pos: int)
    requires
        0 <= pos <= s.len(),
        forall|i: int| 0 <= i < s.len() ==> !same_key(#[trigger] s[i], x),
    ensures
        remove_key(s.insert(pos, x), x) == s,
    decreases s.len(), pos,
{
    reveal_with_fuel(remove_key, 3);
    let r = s.insert(pos, x);
    if pos == 0 {
        assert(r[0] == x);
        assert(r.drop_first() =~= s);
        lemma_remove_key_absent(s, x);
    } else {
        assert(r[0] == s[0]);
        assert(r.drop_first() =~= s.drop_first().insert(pos - 1, x));
        assert forall|i: int| 0 <= i < s.drop_first().len() implies !same_key(
            #[trigger] s.drop_first()[i],
            x,
        ) by {
            assert(s.drop_first()[i] == s[i + 1]);
        }
        lemma_remove_insert(s.drop_first(), x, pos - 1);
        assert(remove_key(r, x) =~= seq![s[0]] + remove_key(s.drop_first().insert(pos - 1, x), x));
        assert(seq![s[0]] + s.drop_first() =~= s);
    }
}

/// Removing an absent key changes nothing.
proof fn lemma_remove_key_absent(s: Seq<DeltaRowView>, k: DeltaRowView)
    requires
        forall|i: int| 0 <= i < s.len() ==> !same_key(#[trigger] s[i], k),
    ensures
        remove_key(s, k) == s,
    decreases s.len(),
{
    reveal_with_fuel(remove_key, 2);
    if s.len() > 0 {
        assert forall|i: int| 0 <= i < s.drop_first().len() implies !same_key(
            #[trigger] s.drop_first()[i],
            k,
        ) by {
            assert(s.drop_first()[i] == s[i + 1]);
        }
        lemma_remove_key_absent(s.drop_first(), k);
        assert(remove_key(s, k) =~= seq![s[0]] + s.drop_first());
        assert(seq![s[0]] + s.drop_first() =~= s);
    }
}

/// The insertion point is in range.
proof fn lemma_first_above_props(s: Seq<DeltaRowView>, t: u64)
    ensures
        0 <= first_above(s, t) <= s.len(),
    decreases s.len(),
{
    reveal_with_fuel(first_above, 2);
    if s.len() > 0 && !(s[0].hlc_ts > t) {
        lemma_first_above_props(s.drop_first(), t);
    }
}

/// The monotonicity law of the catch-up query: raising the threshold never
/// adds a payload — what comes back for the higher threshold is a
/// sub-multiset of what comes back for the lower one.
pub proof fn lemma_deltas_after_monotone(s: Seq<DeltaRowView>, doc: Seq<char>, t1: u64, t2: u64)
    requires
        t1 <= t2,
    ensures
        deltas_after(s, doc, t2).len() <= deltas_after(s, doc, t1).len(),
        deltas_after(s, doc, t2).to_multiset().subset_of(
            deltas_after(s, doc, t1).to_multiset(),
        ),
    decreases s.len(),
{
    broadcast use vstd::seq_lib::group_to_multiset_ensures;

    reveal_with_fuel(deltas_after, 2);
    let a1 = deltas_after(s, doc, t1);
    let a2 = deltas_after(s, doc, t2);
    if s.len() > 0 {
        lemma_deltas_after_monotone(s.drop_first(), doc, t1, t2);
        let d1 = deltas_after(s.drop_first(), doc, t1);
        let d2 = deltas_after(s.drop_first(), doc, t2);
        let x = s[0].delta_bytes;
        if s[0].doc_id == doc && s[0].hlc_ts > t2 {
            assert(a1 =~= seq![x] + d1);
            assert(a2 =~= seq![x] + d2);
            vstd::seq_lib::lemma_multiset_commutative(seq![x], d1);
            vstd::seq_lib::lemma_multiset_commutative(seq![x], d2);
            assert(seq![x].to_multiset() =~= Multiset::<Seq<u8>>::empty().insert(x));
            assert forall|y: Seq<u8>| #[trigger] a2.to_multiset().count(y)
                <= a1.to_multiset().count(y) by {
                assert(a2.to_multiset().count(y) == seq![x].to_multiset().count(y)
                    + d2.to_multiset().count(y));
                assert(a1.to_multiset().count(y) == seq![x].to_multiset().count(y)
                    + d1.to_multiset().count(y));
                assert(d2.to_multiset().count(y) <= d1.to_multiset().count(y));
            }
        } else if s[0].doc_id == doc && s[0].hlc_ts > t1 {
            assert(a1 =~= seq![x] + d1);
            assert(a2 == d2);
            vstd::seq_lib::lemma_multiset_commutative(seq![x], d1);
            assert forall|y: Seq<u8>| #[trigger] a2.to_multiset().count(y)
                <= a1.to_multiset().count(y) by {
                assert(a1.to_multiset().count(y) == seq![x].to_multiset().count(y)
                    + d1.to_multiset().count(y));
                assert(d2.to_multiset().count(y) <= d1.to_multiset().count(y));
            }
        } else {
            assert(a1 == d1);
            assert(a2 == d2);
        }
    } else {
        assert(a2.len() == 0);
    }
}

} // verus!
