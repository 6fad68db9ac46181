//! Broker event parsing: the topic grammar
//! `sm-repository/{repoId}/submodels/{id}/submodelElements/{path…}/{kind}`
//! with base64url identifiers, and the policy that extracts a typed change
//! record with a decoded value from the event payload.

use vstd::prelude::*;
use vstd::utf8::encode_utf8;
use crate::encoding::{b64url_of, decode_id_base64url, EncodingError};
use crate::json::{json_of, obj_member, parse_json, JsonValue, JsonView};
use crate::strutil::{join_char, spec_join_char, spec_split_char, split_char, str_eq};

verus! {

/// The kind of change an event announces.
#[derive(Debug, Clone, Copy, PartialEq, Eq, Structural)]
pub enum EventType {
    /// Element was created
    Created,
    /// Element was updated
    Updated,
    /// Element was deleted
    Deleted,
    /// Multiple elements were patched
    Patched,
}

/// The event kind a topic suffix names, if any.
pub open spec fn spec_event_type(s: Seq<char>) -> Option<EventType> {
    if s == "created"@ {
        Some(EventType::Created)
    } else if s == "updated"@ {
        Some(EventType::Updated)
    } else if s == "deleted"@ {
        Some(EventType::Deleted)
    } else if s == "patched"@ {
        Some(EventType::Patched)
    } else {
        None
    }
}

impl EventType {
    /// Parse an event kind from its topic suffix.
    pub fn from_topic_suffix(suffix: &str) -> (r: Option<EventType>)
        ensures
            r == spec_event_type(suffix@),
    {
        if str_eq(suffix, "created") {
            Some(EventType::Created)
        } else if str_eq(suffix, "updated") {
            Some(EventType::Updated)
        } else if str_eq(suffix, "deleted") {
            Some(EventType::Deleted)
        } else if str_eq(suffix, "patched") {
            Some(EventType::Patched)
        } else {
            None
        }
    }
}

/// The mathematical form of an element-level change.
#[verifier::ext_equal]
pub struct ElementEventView {
    pub id_short_path: Seq<char>,
    pub value: Option<JsonView>,
}

/// Element-level details of an event: the affected element's path and the
/// new value, when the payload carried one.
#[derive(Debug, PartialEq)]
pub struct ElementEvent {
    /// idShortPath of the affected element, slash-separated as on the wire
    pub id_short_path: String,
    /// New value, if the event carried one
    pub value: Option<JsonValue>,
}

impl View for ElementEvent {
    type V = ElementEventView;

    open spec fn view(&self) -> ElementEventView {
        ElementEventView {
            id_short_path: self.id_short_path@,
            value: match self.value {
                Some(v) => Some(v@),
                None => None,
            },
        }
    }
}

/// The mathematical form of a parsed event.
#[verifier::ext_equal]
pub struct BasyxEventView {
    pub repo_id: Seq<char>,
    pub submodel_id: Seq<char>,
    pub event_type: EventType,
    pub element: Option<ElementEventView>,
    pub payload: JsonView,
}

/// A parsed broker event: the repository, the decoded submodel id, the
/// change kind, the element details when the topic addresses one, and the
/// raw payload.
#[derive(Debug, PartialEq)]
pub struct BasyxEvent {
    /// Repository identifier
    pub repo_id: String,
    /// Submodel identifier, decoded from base64url
    pub submodel_id: String,
    /// The kind of change
    pub event_type: EventType,
    /// Element-level details, if the topic addresses an element
    pub element: Option<ElementEvent>,
    /// Raw event payload
    pub payload: JsonValue,
}

impl View for BasyxEvent {
    type V = BasyxEventView;

    open spec fn view(&self) -> BasyxEventView {
        BasyxEventView {
            repo_id: self.repo_id@,
            submodel_id: self.submodel_id@,
            event_type: self.event_type,
            element: match self.element {
                Some(e) => Some(e@),
                None => None,
            },
            payload: self.payload@,
        }
    }
}

/// Errors of event parsing; each carries its diagnostic text.
#[derive(Debug, PartialEq)]
pub enum EventParseError {
    /// Topic does not follow the repository event grammar
    InvalidTopic(String),
    /// The submodel identifier did not decode from base64url
    DecodeError(String),
    /// The payload was non-empty and not valid JSON
    PayloadParse(String),
    /// The topic's final segment names no known event kind
    UnknownEventType(String),
}

impl EventParseError {
    /// A human-readable rendering of the error.
    pub fn message(&self) -> (r: &str) {
        match self {
            EventParseError::InvalidTopic(s) => s.as_str(),
            EventParseError::DecodeError(s) => s.as_str(),
            EventParseError::PayloadParse(s) => s.as_str(),
            EventParseError::UnknownEventType(s) => s.as_str(),
        }
    }
}

/// The first index of a word among the parts, or -1.
pub open spec fn part_idx(parts: Seq<Seq<char>>, word: Seq<char>) -> int
    decreases parts.len(),
{
    if parts.len() == 0 {
        -1
    } else if parts[0] == word {
        0
    } else {
        let r = part_idx(parts.drop_first(), word);
        if r < 0 {
            -1
        } else {
            r + 1
        }
    }
}

pub proof fn lemma_part_idx_props(parts: Seq<Seq<char>>, word: Seq<char>)
    ensures
        part_idx(parts, word) >= 0 ==> 0 <= part_idx(parts, word) < parts.len()
            && parts[part_idx(parts, word)] == word && forall|i: int|
            0 <= i < part_idx(parts, word) ==> parts[i] != word,
        part_idx(parts, word) < 0 ==> forall|i: int| 0 <= i < parts.len() ==> parts[i] != word,
    decreases parts.len(),
{
    reveal_with_fuel(part_idx, 2);
    if parts.len() > 0 && parts[0] != word {
        lemma_part_idx_props(parts.drop_first(), word);
        let r = part_idx(parts.drop_first(), word);
        if r >= 0 {
            assert forall|i: int| 0 <= i < part_idx(parts, word) implies parts[i] != word by {
                if i > 0 {
                    assert(parts.drop_first()[i - 1] != word);
                }
            }
        } else {
            assert forall|i: int| 0 <= i < parts.len() implies parts[i] != word by {
                if i > 0 {
                    assert(parts.drop_first()[i - 1] != word);
                }
            }
        }
    }
}

/// Whether a topic follows the repository event grammar far enough to name
/// a repository and a submodel.
pub open spec fn spec_topic_shape_ok(parts: Seq<Seq<char>>) -> bool {
    &&& parts.len() >= 4
    &&& parts[0] == "sm-repository"@
    &&& part_idx(parts, "submodels"@) >= 0
    &&& part_idx(parts, "submodels"@) + 1 < parts.len()
}

/// The value an element event carries, extracted from the payload: an
/// object's `value` member if there is one; a bare scalar or array payload
/// itself; nothing otherwise.
pub open spec fn spec_event_value(pv: JsonView) -> Option<JsonView> {
    if obj_member(pv, "value"@) is Some {
        obj_member(pv, "value"@)
    } else if pv is Obj {
        None
    } else if pv is Null {
        None
    } else {
        Some(pv)
    }
}

/// The element details a topic and payload describe: present exactly when
/// the topic has path segments between `submodelElements` and the kind.
pub open spec fn spec_event_element(parts: Seq<Seq<char>>, pv: JsonView) -> Option<
    ElementEventView,
> {
    let ei = part_idx(parts, "submodelElements"@);
    if ei >= 0 && ei + 1 < parts.len() - 1 {
        Some(
            ElementEventView {
                id_short_path: spec_join_char(parts.subrange(ei + 1, parts.len() - 1), '/'),
                value: spec_event_value(pv),
            },
        )
    } else {
        None
    }
}

/// The payload's JSON reading: empty payloads read as null, anything else
/// as the JSON document it spells.
pub open spec fn spec_payload_json(payload: Seq<u8>) -> Option<JsonView> {
    if payload.len() == 0 {
        Some(JsonView::Null)
    } else {
        json_of(payload)
    }
}

impl BasyxEvent {
    /// Parse a broker event from its topic and payload.
    ///
    /// On success the record carries the repository id, the decoded
    /// submodel id, the event kind named by the topic's last segment, and
    /// the element details with the extracted value. Errors name the first
    /// failing stage: the topic shape, the submodel id decoding, the
    /// payload JSON, or the event kind.
    pub fn parse(topic: &str, payload: &[u8]) -> (r: Result<BasyxEvent, EventParseError>)
        ensures
            ({
                let parts = spec_split_char(topic@, '/');
                let pj = spec_payload_json(payload@);
                &&& (r matches Err(e) && e is InvalidTopic ==> !spec_topic_shape_ok(parts))
                &&& (!spec_topic_shape_ok(parts) ==> (r matches Err(e) && e is InvalidTopic))
                &&& (r matches Err(e) && e is PayloadParse ==> spec_topic_shape_ok(parts)
                    && pj is None)
                &&& (r matches Err(e) && e is UnknownEventType ==> spec_topic_shape_ok(parts)
                    && pj is Some && spec_event_type(parts.last()) is None)
                &&& (r matches Err(e) && e is DecodeError ==> spec_topic_shape_ok(parts)
                    && (forall|x: Seq<char>|
                        parts[part_idx(parts, "submodels"@) + 1] != b64url_of(
                            #[trigger] encode_utf8(x),
                        )))
                &&& (r matches Ok(ev) ==> {
                    let si = part_idx(parts, "submodels"@);
                    &&& spec_topic_shape_ok(parts)
                    &&& pj is Some
                    &&& spec_event_type(parts.last()) is Some
                    &&& ev@.repo_id == parts[1]
                    &&& (forall|x: Seq<char>|
                        parts[si + 1] == b64url_of(#[trigger] encode_utf8(x))
                            ==> ev@.submodel_id == x)
                    &&& ev@.event_type == spec_event_type(parts.last())->0
                    &&& ev@.payload == pj->0
                    &&& ev@.element == spec_event_element(parts, pj->0)
                })
            }),
    {
        let ghost gparts = spec_split_char(topic@, '/');
        let parts = split_char(topic, '/');
        proof {
            reveal_strlit("sm-repository");
            reveal_strlit("submodels");
            reveal_strlit("submodelElements");
            lemma_part_idx_props(gparts, "submodels"@);
            lemma_part_idx_props(gparts, "submodelElements"@);
        }
        if parts.len() < 4 || !str_eq(parts[0].as_str(), "sm-repository") {
            proof {
                assert(parts@.map_values(|x: String| x@)[0] == gparts[0]);
            }
            return Err(EventParseError::InvalidTopic(topic.to_owned()));
        }
        proof {
            assert(gparts[0] == "sm-repository"@) by {
                assert(parts@.map_values(|x: String| x@)[0] == gparts[0]);
            }
        }
        let repo_id = parts[1].clone();
        let submodels_idx = match find_part(&parts, "submodels") {
            Some(i) => i,
            None => {
                proof {
                    assert(part_idx(gparts, "submodels"@) < 0) by {
                        if part_idx(gparts, "submodels"@) >= 0 {
                            let i = part_idx(gparts, "submodels"@);
                            assert(parts@.map_values(|x: String| x@)[i] == gparts[i]);
                        }
                    }
                }
                return Err(EventParseError::InvalidTopic(topic.to_owned()));
            },
        };
        if submodels_idx + 1 >= parts.len() {
            return Err(EventParseError::InvalidTopic(topic.to_owned()));
        }
        let submodel_id = match decode_id_base64url(parts[submodels_idx + 1].as_str()) {
            Ok(s) => s,
            Err(e) => {
                proof {
                    assert(parts@.map_values(|x: String| x@)[submodels_idx + 1]
                        == gparts[submodels_idx + 1]);
                }
                let msg = match e {
                    EncodingError::Base64Decode(m) => m,
                    EncodingError::Utf8Decode(m) => m,
                };
                return Err(EventParseError::DecodeError(msg));
            },
        };
        let payload_value = if payload.len() == 0 {
            JsonValue::Null
        } else {
            match parse_json(payload) {
                Ok(v) => v,
                Err(m) => {
                    return Err(EventParseError::PayloadParse(m));
                },
            }
        };
        let last_str = parts[parts.len() - 1].clone();
        proof {
            assert(parts@.map_values(|x: String| x@)[gparts.len() - 1] == gparts.last());
        }
        let event_type = match EventType::from_topic_suffix(last_str.as_str()) {
            Some(t) => t,
            None => {
                return Err(EventParseError::UnknownEventType(last_str));
            },
        };
        let element = match find_part(&parts, "submodelElements") {
            Some(ei) => {
                if ei + 1 < parts.len() - 1 {
                    proof {
                        reveal_strlit("/");
                        assert("/"@ =~= seq!['/']);
                    }
                    let id_short_path = join_char(
                        parts.as_slice(),
                        ei + 1,
                        parts.len() - 1,
                        "/",
                        Ghost('/'),
                    );
                    proof {
                        assert(parts@.subrange(ei + 1, parts@.len() - 1).map_values(
                            |x: String| x@,
                        ) =~= gparts.subrange(ei + 1, gparts.len() - 1));
                    }
                    let value = extract_value(&payload_value);
                    Some(ElementEvent { id_short_path, value })
                } else {
                    None
                }
            },
            None => None,
        };
        let ev = BasyxEvent {
            repo_id,
            submodel_id,
            event_type,
            element,
            payload: payload_value,
        };
        proof {
            assert(ev@.repo_id == gparts[1]) by {
                assert(parts@.map_values(|x: String| x@)[1] == gparts[1]);
            }
            assert(parts@.map_values(|x: String| x@)[submodels_idx + 1] == gparts[submodels_idx
                + 1]);
            assert(ev@.element =~= spec_event_element(gparts, ev@.payload));
        }
        Ok(ev)
    }
}

/// Extract the value an element event carries from its payload.
fn extract_value(payload: &JsonValue) -> (r: Option<JsonValue>)
    ensures
        (match r {
            Some(v) => Some(v@),
            None => None,
        }) == spec_event_value(payload@),
{
    proof {
        reveal_strlit("value");
    }
    match payload.get_member("value") {
        Some(v) => Some(v.clone()),
        None => {
            if payload.is_object() || payload.is_null() {
                None
            } else {
                Some(payload.clone())
            }
        },
    }
}

/// The position of the first part equal to a word.
fn find_part(parts: &Vec<String>, word: &str) -> (r: Option<usize>)
    ensures
        r matches Some(i) ==> part_idx(parts@.map_values(|x: String| x@), word@) == i
            && i < parts@.len(),
        r is None ==> part_idx(parts@.map_values(|x: String| x@), word@) < 0,
{
    let ghost gparts = parts@.map_values(|x: String| x@);
    proof {
        lemma_part_idx_props(gparts, word@);
    }
    let n = parts.len();
    let mut i: usize = 0;
    while i < n
        invariant
            i <= n,
            n == parts@.len(),
            forall|k: int| 0 <= k < i ==> gparts[k] != word@,
        decreases n - i,
    {
        if str_eq(parts[i].as_str(), word) {
            proof {
                assert(gparts[i as int] == word@);
                lemma_part_idx_first(gparts, word@, i as int);
            }
            return Some(i);
        }
        i += 1;
    }
    None
}

/// The first match is the index the search finds.
pub proof fn lemma_part_idx_first(parts: Seq<Seq<char>>, word: Seq<char>, i: int)
    requires
        0 <= i < parts.len(),
        parts[i] == word,
        forall|k: int| 0 <= k < i ==> parts[k] != word,
    ensures
        part_idx(parts, word) == i,
    decreases i,
{
    reveal_with_fuel(part_idx, 2);
    if i > 0 {
        assert(parts.drop_first()[i - 1] == word);
        assert forall|k: int| 0 <= k < i - 1 implies parts.drop_first()[k] != word by {
            assert(parts.drop_first()[k] == parts[k + 1]);
        }
        lemma_part_idx_first(parts.drop_first(), word, i - 1);
    }
}

} // verus!
