//! Canonical element paths: the bidirectional mapping between dotted
//! idShortPath strings and structured paths, and the per-element-type merge
//! strategies.
//!
//! List elements are addressed by a stable element id in brackets, never by
//! a positional index, so edits at different replicas cannot alias.

use vstd::prelude::*;
use vstd::string::{StrSliceExecFns, StringExecFns};
use crate::strutil::str_to_chars;

verus! {

/// The kind of a submodel element.
#[derive(Debug, Clone, Copy, PartialEq, Eq, Structural)]
pub enum ElementType {
    /// A single-valued property
    Property,
    /// A range with min/max values
    Range,
    /// A multi-language property
    MultiLanguageProperty,
    /// A reference element
    ReferenceElement,
    /// A blob (binary data)
    Blob,
    /// A file reference
    File,
    /// A submodel element collection
    SubmodelElementCollection,
    /// An ordered list of elements
    SubmodelElementList,
    /// An annotated relationship
    AnnotatedRelationshipElement,
    /// A basic event element
    BasicEventElement,
    /// An entity element
    Entity,
    /// An operation element
    Operation,
    /// A capability element
    Capability,
}

/// How conflicting writes to an element of a given kind reconcile.
#[derive(Debug, Clone, Copy, PartialEq, Eq, Structural)]
pub enum MergeStrategy {
    /// Last-writer-wins: the higher timestamp wins entirely
    Lww,
    /// Per-field last-writer-wins: each field merged independently
    PerFieldLww,
    /// Observed-remove map: children merged as a set with add-wins
    OrMap,
    /// Content-addressed: a pointer to immutable content
    ContentAddressed,
}

/// The strategy assigned to each element kind.
pub open spec fn spec_merge_strategy(t: ElementType) -> MergeStrategy {
    match t {
        ElementType::Property => MergeStrategy::Lww,
        ElementType::ReferenceElement => MergeStrategy::Lww,
        ElementType::BasicEventElement => MergeStrategy::Lww,
        ElementType::Capability => MergeStrategy::Lww,
        ElementType::Operation => MergeStrategy::Lww,
        ElementType::Range => MergeStrategy::PerFieldLww,
        ElementType::MultiLanguageProperty => MergeStrategy::PerFieldLww,
        ElementType::SubmodelElementCollection => MergeStrategy::OrMap,
        ElementType::SubmodelElementList => MergeStrategy::OrMap,
        ElementType::AnnotatedRelationshipElement => MergeStrategy::OrMap,
        ElementType::Entity => MergeStrategy::OrMap,
        ElementType::Blob => MergeStrategy::ContentAddressed,
        ElementType::File => MergeStrategy::ContentAddressed,
    }
}

impl ElementType {
    /// The merge strategy for this element kind.
    pub fn merge_strategy(&self) -> (r: MergeStrategy)
        ensures
            r == spec_merge_strategy(*self),
    {
        match self {
            ElementType::Property
            | ElementType::ReferenceElement
            | ElementType::BasicEventElement
            | ElementType::Capability
            | ElementType::Operation => MergeStrategy::Lww,
            ElementType::Range | ElementType::MultiLanguageProperty => MergeStrategy::PerFieldLww,
            ElementType::SubmodelElementCollection
            | ElementType::SubmodelElementList
            | ElementType::AnnotatedRelationshipElement
            | ElementType::Entity => MergeStrategy::OrMap,
            ElementType::Blob | ElementType::File => MergeStrategy::ContentAddressed,
        }
    }
}

/// The mathematical form of a path segment.
#[verifier::ext_equal]
pub struct SegView {
    pub id_short: Seq<char>,
    pub element_id: Option<Seq<char>>,
}

/// One step of a canonical path: an idShort, with a stable element id for
/// list elements.
#[derive(Debug, PartialEq, Eq, Hash)]
pub struct PathSegment {
    /// The idShort of the element
    pub id_short: String,
    /// The stable element id, for list elements
    pub element_id: Option<String>,
}

impl View for PathSegment {
    type V = SegView;

    open spec fn view(&self) -> SegView {
        SegView {
            id_short: self.id_short@,
            element_id: match self.element_id {
                Some(e) => Some(e@),
                None => None,
            },
        }
    }
}

impl Clone for PathSegment {
    fn clone(&self) -> (r: Self)
        ensures
            r@ == self@,
    {
        PathSegment {
            id_short: self.id_short.clone(),
            element_id: match &self.element_id {
                Some(e) => Some(e.clone()),
                None => None,
            },
        }
    }
}

impl PathSegment {
    /// A plain segment.
    pub fn new(id_short: &str) -> (r: PathSegment)
        ensures
            r@ == (SegView { id_short: id_short@, element_id: None }),
    {
        PathSegment { id_short: id_short.to_owned(), element_id: None }
    }

    /// A segment addressing a list element by its stable id.
    pub fn list_element(id_short: &str, element_id: &str) -> (r: PathSegment)
        ensures
            r@ == (SegView { id_short: id_short@, element_id: Some(element_id@) }),
    {
        PathSegment { id_short: id_short.to_owned(), element_id: Some(element_id.to_owned()) }
    }
}

/// The string form of one segment: the idShort, with the element id in
/// brackets when present.
pub open spec fn spec_segment_str(s: SegView) -> Seq<char> {
    match s.element_id {
        Some(e) => s.id_short + seq!['['] + e + seq![']'],
        None => s.id_short,
    }
}

/// The string form of a path: segments joined by dots.
pub open spec fn spec_path_str(segs: Seq<SegView>) -> Seq<char>
    decreases segs.len(),
{
    if segs.len() == 0 {
        Seq::empty()
    } else if segs.len() == 1 {
        spec_segment_str(segs[0])
    } else {
        spec_segment_str(segs[0]) + seq!['.'] + spec_path_str(segs.drop_first())
    }
}

/// The first position of a character in a sequence, or -1.
pub open spec fn first_idx(s: Seq<char>, c: char) -> int
    decreases s.len(),
{
    if s.len() == 0 {
        -1
    } else if s[0] == c {
        0
    } else {
        let r = first_idx(s.drop_first(), c);
        if r < 0 {
            -1
        } else {
            r + 1
        }
    }
}

pub proof fn lemma_first_idx_props(s: Seq<char>, c: char)
    ensures
        first_idx(s, c) >= 0 ==> 0 <= first_idx(s, c) < s.len() && s[first_idx(s, c)] == c
            && forall|i: int| 0 <= i < first_idx(s, c) ==> s[i] != c,
        first_idx(s, c) < 0 ==> forall|i: int| 0 <= i < s.len() ==> s[i] != c,
    decreases s.len(),
{
    reveal_with_fuel(first_idx, 2);
    if s.len() > 0 && s[0] != c {
        lemma_first_idx_props(s.drop_first(), c);
        let r = first_idx(s.drop_first(), c);
        if r >= 0 {
            assert forall|i: int| 0 <= i < first_idx(s, c) implies s[i] != c by {
                if i > 0 {
                    assert(s.drop_first()[i - 1] != c);
                }
            }
        } else {
            assert forall|i: int| 0 <= i < s.len() implies s[i] != c by {
                if i > 0 {
                    assert(s.drop_first()[i - 1] != c);
                }
            }
        }
    }
}

/// Where a character first occurs is determined by any split of the
/// sequence around its first occurrence.
pub proof fn lemma_first_idx_concat(pre: Seq<char>, c: char, post: Seq<char>)
    requires
        forall|i: int| 0 <= i < pre.len() ==> pre[i] != c,
    ensures
        first_idx(pre + seq![c] + post, c) == pre.len(),
    decreases pre.len(),
{
    reveal_with_fuel(first_idx, 2);
    let s = pre + seq![c] + post;
    if pre.len() == 0 {
        assert(s[0] == c);
    } else {
        assert(s[0] == pre[0]);
        assert(s.drop_first() =~= pre.drop_first() + seq![c] + post);
        assert forall|i: int| 0 <= i < pre.drop_first().len() implies pre.drop_first()[i]
            != c by {
            assert(pre.drop_first()[i] == pre[i + 1]);
        }
        lemma_first_idx_concat(pre.drop_first(), c, post);
    }
}

/// A character that never occurs is never found.
pub proof fn lemma_first_idx_absent(s: Seq<char>, c: char)
    requires
        forall|i: int| 0 <= i < s.len() ==> s[i] != c,
    ensures
        first_idx(s, c) < 0,
    decreases s.len(),
{
    reveal_with_fuel(first_idx, 2);
    if s.len() > 0 {
        assert forall|i: int| 0 <= i < s.drop_first().len() implies s.drop_first()[i] != c by {
            assert(s.drop_first()[i] == s[i + 1]);
        }
        lemma_first_idx_absent(s.drop_first(), c);
    }
}

/// One segment, parsed back from its string form.
pub open spec fn spec_parse_segment(part: Seq<char>) -> SegView {
    let b = first_idx(part, '[');
    if b < 0 {
        SegView { id_short: part, element_id: None }
    } else {
        let e = if part.len() - 1 > b + 1 {
            part.subrange(b + 1, part.len() - 1)
        } else {
            Seq::empty()
        };
        SegView { id_short: part.take(b), element_id: Some(e) }
    }
}

/// A string split at every dot.
pub open spec fn spec_split_dots(s: Seq<char>) -> Seq<Seq<char>>
    decreases s.len(),
{
    let i = first_idx(s, '.');
    if 0 <= i < s.len() {
        seq![s.take(i)] + spec_split_dots(s.subrange(i + 1, s.len() as int))
    } else {
        seq![s]
    }
}

/// A path parsed from its string form: the empty string is the root, any
/// other string is split at dots and each part read as a segment.
pub open spec fn spec_parse_path(s: Seq<char>) -> Seq<SegView> {
    if s.len() == 0 {
        Seq::empty()
    } else {
        spec_split_dots(s).map_values(|p: Seq<char>| spec_parse_segment(p))
    }
}

/// A segment that the string form can carry faithfully: no dot anywhere,
/// no bracket in the idShort, and not rendering as the empty string.
pub open spec fn wf_segment(s: SegView) -> bool {
    &&& forall|i: int| 0 <= i < s.id_short.len() ==> s.id_short[i] != '.' && s.id_short[i] != '['
    &&& match s.element_id {
        Some(e) => forall|i: int| 0 <= i < e.len() ==> e[i] != '.',
        None => s.id_short.len() > 0,
    }
}

/// A path every segment of which is well-formed.
pub open spec fn wf_path(segs: Seq<SegView>) -> bool {
    forall|i: int| 0 <= i < segs.len() ==> wf_segment(#[trigger] segs[i])
}

/// A canonical path: the segments from the submodel root down to one
/// element.
#[derive(Debug, PartialEq, Eq, Hash)]
pub struct CanonicalPath {
    /// Path segments from the submodel root
    pub segments: Vec<PathSegment>,
}

impl View for CanonicalPath {
    type V = Seq<SegView>;

    open spec fn view(&self) -> Seq<SegView> {
        self.segments@.map_values(|s: PathSegment| s@)
    }
}

impl Clone for CanonicalPath {
    fn clone(&self) -> (r: Self)
        ensures
            r@ == self@,
    {
        let n = self.segments.len();
        let mut out: Vec<PathSegment> = Vec::new();
        let mut i: usize = 0;
        while i < n
            invariant
                i <= n,
                out@.len() == i,
                forall|k: int| 0 <= k < i ==> out@[k]@ == self.segments@[k]@,
            decreases n - i,
        {
            out.push(self.segments[i].clone());
            i += 1;
        }
        let r = CanonicalPath { segments: out };
        proof {
            assert(r@ =~= self@);
        }
        r
    }
}

impl CanonicalPath {
    /// The empty path: the submodel root.
    pub fn root() -> (r: CanonicalPath)
        ensures
            r@ == Seq::<SegView>::empty(),
    {
        let r = CanonicalPath { segments: Vec::new() };
        proof {
            assert(r@ =~= Seq::<SegView>::empty());
        }
        r
    }

    /// A path from its segments.
    pub fn from_segments(segments: Vec<PathSegment>) -> (r: CanonicalPath)
        ensures
            r@ == segments@.map_values(|s: PathSegment| s@),
    {
        CanonicalPath { segments }
    }

    /// This path extended by one more segment.
    pub fn child(&self, segment: PathSegment) -> (r: CanonicalPath)
        ensures
            r@ == self@.push(segment@),
    {
        let mut segments = self.clone().segments;
        segments.push(segment);
        let r = CanonicalPath { segments };
        proof {
            assert(r@ =~= self@.push(segment@));
        }
        r
    }

    /// The dotted string form of this path.
    pub fn to_id_short_path(&self) -> (r: String)
        ensures
            r@ == spec_path_str(self@),
    {
        let n = self.segments.len();
        let mut r = String::new();
        let mut i: usize = 0;
        proof {
            reveal_strlit(".");
            reveal_strlit("[");
            reveal_strlit("]");
        }
        while i < n
            invariant
                i <= n,
                n == self.segments@.len(),
                r@ == spec_path_str(self@.take(i as int)),
            decreases n - i,
        {
            if i > 0 {
                r.append(".");
            }
            r.append(self.segments[i].id_short.as_str());
            match &self.segments[i].element_id {
                Some(e) => {
                    r.append("[");
                    r.append(e.as_str());
                    r.append("]");
                },
                None => {},
            }
            i += 1;
            proof {
                reveal_strlit(".");
                reveal_strlit("[");
                reveal_strlit("]");
                lemma_path_str_snoc(self@.take(i - 1), self@[i - 1]);
                assert(self@.take(i as int).drop_last() =~= self@.take(i - 1));
                assert(self@.take(i as int) =~= self@.take(i - 1).push(self@[i - 1]));
                assert(spec_segment_str(self@[i - 1]) == (match self@[i - 1].element_id {
                    Some(e) => self@[i - 1].id_short + seq!['['] + e + seq![']'],
                    None => self@[i - 1].id_short,
                }));
                assert(r@ == spec_path_str(self@.take(i as int)));
            }
        }
        proof {
            assert(self@.take(n as int) =~= self@);
        }
        r
    }

    /// A path parsed from its dotted string form: the empty string is the
    /// root; otherwise the string splits at every dot and each part reads
    /// as one segment, taking a bracketed suffix as the element id.
    pub fn from_id_short_path(path: &str) -> (r: CanonicalPath)
        ensures
            r@ == spec_parse_path(path@),
    {
        if path.is_empty() {
            let r = CanonicalPath { segments: Vec::new() };
            proof {
                assert(r@ =~= spec_parse_path(path@));
            }
            return r;
        }
        let chars = str_to_chars(path);
        let segments = parse_dotted(path, &chars, 0);
        let r = CanonicalPath { segments };
        proof {
            assert(chars@.subrange(0, chars@.len() as int) =~= path@);
            assert(r@ =~= spec_split_dots(path@).map_values(
                |p: Seq<char>| spec_parse_segment(p),
            ));
        }
        r
    }
}

/// Joining one more segment appends a dot and its string form.
pub proof fn lemma_path_str_snoc(segs: Seq<SegView>, x: SegView)
    ensures
        segs.len() == 0 ==> spec_path_str(segs.push(x)) == spec_segment_str(x),
        segs.len() > 0 ==> spec_path_str(segs.push(x)) == spec_path_str(segs) + seq!['.']
            + spec_segment_str(x),
    decreases segs.len(),
{
    reveal_with_fuel(spec_path_str, 3);
    if segs.len() == 0 {
        assert(segs.push(x)[0] == x);
    } else {
        assert(segs.push(x)[0] == segs[0]);
        assert(segs.push(x).drop_first() =~= segs.drop_first().push(x));
        lemma_path_str_snoc(segs.drop_first(), x);
        if segs.len() == 1 {
            assert(spec_path_str(segs) == spec_segment_str(segs[0]));
        } else {
            assert(spec_path_str(segs) == spec_segment_str(segs[0]) + seq!['.'] + spec_path_str(
                segs.drop_first(),
            ));
            assert(spec_path_str(segs.push(x)) == spec_segment_str(segs[0]) + seq!['.'] + (
            spec_path_str(segs.drop_first()) + seq!['.'] + spec_segment_str(x)));
            assert(spec_path_str(segs.push(x)) =~= spec_path_str(segs) + seq!['.']
                + spec_segment_str(x));
        }
    }
}

/// Parse the dot-separated parts of `s` from character position `start` on.
fn parse_dotted(s: &str, chars: &Vec<char>, start: usize) -> (r: Vec<PathSegment>)
    requires
        chars@ == s@,
        start <= chars@.len(),
    ensures
        r@.map_values(|p: PathSegment| p@) == spec_split_dots(
            chars@.subrange(start as int, chars@.len() as int),
        ).map_values(|p: Seq<char>| spec_parse_segment(p)),
    decreases chars@.len() - start,
{
    let n = chars.len();
    let ghost sub = chars@.subrange(start as int, n as int);
    let mut i: usize = start;
    while i < n && chars[i] != '.'
        invariant
            start <= i <= n,
            n == chars@.len(),
            forall|k: int| start <= k < i ==> chars@[k] != '.',
        decreases n - i,
    {
        i += 1;
    }
    proof {
        if i < n {
            assert(sub =~= sub.take(i - start) + seq!['.'] + sub.subrange(
                i - start + 1,
                sub.len() as int,
            ));
            assert forall|k: int| 0 <= k < i - start implies #[trigger] sub.take(
                i - start,
            )[k] != '.' by {
                assert(sub.take(i - start)[k] == chars@[start + k]);
            }
            lemma_first_idx_concat(
                sub.take(i - start),
                '.',
                sub.subrange(i - start + 1, sub.len() as int),
            );
            assert(first_idx(sub, '.') == i - start);
        } else {
            assert forall|k: int| 0 <= k < sub.len() implies sub[k] != '.' by {
                assert(sub[k] == chars@[start + k]);
            }
            lemma_first_idx_absent(sub, '.');
        }
    }
    let seg = parse_one_segment(s, chars, start, i);
    if i == n {
        let mut r: Vec<PathSegment> = Vec::new();
        r.push(seg);
        proof {
            assert(sub.take(i - start) =~= sub);
            assert(spec_split_dots(sub) =~= seq![sub]);
            assert(r@.map_values(|p: PathSegment| p@) =~= spec_split_dots(sub).map_values(
                |p: Seq<char>| spec_parse_segment(p),
            ));
        }
        r
    } else {
        let rest0 = parse_dotted(s, chars, i + 1);
        let ghost rest0_snap = rest0@;
        let mut rest = rest0;
        rest.insert(0, seg);
        proof {
            let tail = chars@.subrange(i + 1, n as int);
            assert(sub.subrange(i - start + 1, sub.len() as int) =~= tail);
            assert(sub.take(i - start) =~= chars@.subrange(start as int, i as int));
            lemma_first_idx_props(sub, '.');
            assert(spec_split_dots(sub) =~= seq![sub.take(i - start)] + spec_split_dots(tail));
            assert(rest@ =~= seq![seg] + rest0_snap);
            let lhs = rest@.map_values(|p: PathSegment| p@);
            let rhs = spec_split_dots(sub).map_values(|p: Seq<char>| spec_parse_segment(p));
            assert(rest0_snap.map_values(|p: PathSegment| p@) == spec_split_dots(
                tail,
            ).map_values(|p: Seq<char>| spec_parse_segment(p)));
            assert(rest0_snap.map_values(|p: PathSegment| p@).len() == rest0_snap.len());
            assert(spec_split_dots(tail).map_values(|p: Seq<char>| spec_parse_segment(p)).len()
                == spec_split_dots(tail).len());
            assert(rest0_snap.len() == spec_split_dots(tail).len());
            assert(spec_split_dots(sub).len() == 1 + spec_split_dots(tail).len());
            assert(lhs.len() == 1 + rest0_snap.len());
            assert(rhs.len() == lhs.len());
            assert forall|k: int| 0 <= k < lhs.len() implies lhs[k] == rhs[k] by {
                if k == 0 {
                    assert(rest@[0] == seg);
                    assert(spec_split_dots(sub)[0] == sub.take(i - start));
                } else {
                    assert(rest@[k] == rest0_snap[k - 1]);
                    assert(spec_split_dots(sub)[k] == spec_split_dots(tail)[k - 1]);
                    assert(rest0_snap.map_values(|p: PathSegment| p@)[k - 1] == spec_split_dots(
                        tail,
                    ).map_values(|p: Seq<char>| spec_parse_segment(p))[k - 1]);
                }
            }
            assert(lhs =~= rhs);
        }
        rest
    }
}

/// Parse one dot-free part, characters `start` to `end` of `s`.
fn parse_one_segment(s: &str, chars: &Vec<char>, start: usize, end: usize) -> (r: PathSegment)
    requires
        chars@ == s@,
        start <= end <= chars@.len(),
    ensures
        r@ == spec_parse_segment(chars@.subrange(start as int, end as int)),
{
    let ghost part = chars@.subrange(start as int, end as int);
    let mut i: usize = start;
    while i < end && chars[i] != '['
        invariant
            start <= i <= end,
            end <= chars@.len(),
            forall|k: int| start <= k < i ==> chars@[k] != '[',
        decreases end - i,
    {
        i += 1;
    }
    proof {
        if i < end {
            assert(part =~= part.take(i - start) + seq!['['] + part.subrange(
                i - start + 1,
                part.len() as int,
            ));
            assert forall|k: int| 0 <= k < i - start implies #[trigger] part.take(
                i - start,
            )[k] != '[' by {
                assert(part.take(i - start)[k] == chars@[start + k]);
            }
            lemma_first_idx_concat(
                part.take(i - start),
                '[',
                part.subrange(i - start + 1, part.len() as int),
            );
        } else {
            assert forall|k: int| 0 <= k < part.len() implies part[k] != '[' by {
                assert(part[k] == chars@[start + k]);
            }
            lemma_first_idx_absent(part, '[');
        }
    }
    if i == end {
        let r = PathSegment { id_short: s.substring_char(start, end).to_owned(), element_id: None };
        proof {
            assert(r@ =~= spec_parse_segment(part));
        }
        r
    } else {
        let id_short = s.substring_char(start, i).to_owned();
        let eid_end = if end - 1 > i + 1 {
            end - 1
        } else {
            i + 1
        };
        let element_id = s.substring_char(i + 1, eid_end).to_owned();
        let r = PathSegment { id_short, element_id: Some(element_id) };
        proof {
            assert(s@.subrange(start as int, i as int) =~= part.take(i - start));
            assert(s@.subrange(i + 1, eid_end as int) =~= (
            if part.len() - 1 > i - start + 1 {
                part.subrange(i - start + 1, part.len() - 1)
            } else {
                Seq::<char>::empty()
            }));
            assert(r@ =~= spec_parse_segment(part));
        }
        r
    }
}

/// The round trip of the canonical path grammar: a well-formed path parses
/// back from its own string form unchanged.
pub proof fn lemma_path_roundtrip(segs: Seq<SegView>)
    requires
        wf_path(segs),
    ensures
        spec_parse_path(spec_path_str(segs)) == segs,
    decreases segs.len(),
{
    reveal_with_fuel(spec_path_str, 2);
    reveal_with_fuel(spec_split_dots, 2);
    if segs.len() == 0 {
    } else {
        let s0 = segs[0];
        let rest = segs.drop_first();
        let head = spec_segment_str(s0);
        lemma_segment_str_wf(s0);
        if segs.len() == 1 {
            lemma_first_idx_absent(head, '.');
            assert(spec_split_dots(head) =~= seq![head]);
            lemma_segment_roundtrip(s0);
            assert(spec_parse_path(spec_path_str(segs)) =~= segs);
        } else {
            let tail = spec_path_str(rest);
            let whole = head + seq!['.'] + tail;
            lemma_first_idx_concat(head, '.', tail);
            assert(whole.take(head.len() as int) =~= head);
            assert(whole.subrange(head.len() as int + 1, whole.len() as int) =~= tail);
            assert(spec_split_dots(whole) =~= seq![head] + spec_split_dots(tail));
            lemma_path_roundtrip(rest);
            assert(rest.len() > 0);
            assert(tail.len() > 0) by {
                lemma_path_str_len(rest);
            }
            assert(spec_parse_path(tail) == rest);
            lemma_segment_roundtrip(s0);
            assert(spec_parse_path(whole) =~= seq![s0] + rest);
            assert(seq![s0] + rest =~= segs);
        }
    }
}

/// A non-empty well-formed path renders as a non-empty string.
proof fn lemma_path_str_len(segs: Seq<SegView>)
    requires
        wf_path(segs),
        segs.len() > 0,
    ensures
        spec_path_str(segs).len() > 0,
    decreases segs.len(),
{
    reveal_with_fuel(spec_path_str, 2);
    if segs.len() == 1 {
        assert(wf_segment(segs[0]));
    }
}

/// A well-formed segment's string form holds no dot.
proof fn lemma_segment_str_wf(s: SegView)
    requires
        wf_segment(s),
    ensures
        forall|i: int| 0 <= i < spec_segment_str(s).len() ==> spec_segment_str(s)[i] != '.',
{
}

/// A well-formed segment parses back from its string form unchanged.
proof fn lemma_segment_roundtrip(s: SegView)
    requires
        wf_segment(s),
    ensures
        spec_parse_segment(spec_segment_str(s)) == s,
{
    let out = spec_segment_str(s);
    match s.element_id {
        Some(e) => {
            lemma_first_idx_concat(s.id_short, '[', e + seq![']']);
            assert(out =~= s.id_short + seq!['['] + (e + seq![']']));
            let b = s.id_short.len() as int;
            assert(first_idx(out, '[') == b);
            assert(out.take(b) =~= s.id_short);
            if out.len() - 1 > b + 1 {
                assert(out.subrange(b + 1, out.len() - 1) =~= e);
            } else {
                assert(e.len() == 0);
                assert(spec_parse_segment(out).element_id == Some(Seq::<char>::empty()));
                assert(e =~= Seq::<char>::empty());
            }
            assert(spec_parse_segment(out) =~= s);
        },
        None => {
            lemma_first_idx_absent(out, '[');
            assert(spec_parse_segment(out) =~= s);
        },
    }
}

} // verus!
