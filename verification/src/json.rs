//! Structural JSON values as the replication core carries them.
//!
//! Numbers keep their decimal text so that equality is exact and free of
//! floating point; objects list their members in key order as the parser
//! hands them over, so two values parsed from equivalent documents compare
//! equal member by member.

use vstd::prelude::*;

verus! {

broadcast use vstd::std_specs::vec::axiom_vec_index_decreases,
    vstd::std_specs::vec::axiom_vec_decreases_to_view;

/// The mathematical form of a JSON value.
#[verifier::ext_equal]
pub enum JsonView {
    Null,
    Bool(bool),
    Num(Seq<char>),
    Str(Seq<char>),
    Arr(Seq<JsonView>),
    Obj(Seq<(Seq<char>, JsonView)>),
}

/// A JSON value: null, boolean, number (as its decimal text), string,
/// array, or object.
#[derive(Debug, PartialEq, Eq)]
pub enum JsonValue {
    Null,
    Bool(bool),
    /// A number, carried as its decimal text
    Num(String),
    Str(String),
    Arr(Vec<JsonValue>),
    Obj(Vec<(String, JsonValue)>),
}

/// The views of a sequence of values.
pub open spec fn views_of(items: Seq<JsonValue>) -> Seq<JsonView>
    decreases items,
{
    if items.len() == 0 {
        Seq::empty()
    } else {
        views_of(items.drop_last()).push(items.last()@)
    }
}

/// The views of a sequence of object members.
pub open spec fn member_views_of(ms: Seq<(String, JsonValue)>) -> Seq<(Seq<char>, JsonView)>
    decreases ms,
{
    if ms.len() == 0 {
        Seq::empty()
    } else {
        member_views_of(ms.drop_last()).push((ms.last().0@, ms.last().1@))
    }
}

impl View for JsonValue {
    type V = JsonView;

    open spec fn view(&self) -> JsonView
        decreases self,
    {
        match self {
            JsonValue::Null => JsonView::Null,
            JsonValue::Bool(b) => JsonView::Bool(*b),
            JsonValue::Num(s) => JsonView::Num(s@),
            JsonValue::Str(s) => JsonView::Str(s@),
            JsonValue::Arr(items) => JsonView::Arr(views_of(items@)),
            JsonValue::Obj(members) => JsonView::Obj(member_views_of(members@)),
        }
    }
}

pub broadcast proof fn lemma_views_of_props(items: Seq<JsonValue>)
    ensures
        (#[trigger] views_of(items)).len() == items.len(),
        forall|i: int| 0 <= i < items.len() ==> views_of(items)[i] == items[i]@,
    decreases items.len(),
{
    reveal_with_fuel(views_of, 2);
    if items.len() > 0 {
        lemma_views_of_props(items.drop_last());
        assert forall|i: int| 0 <= i < items.len() implies views_of(items)[i] == items[i]@ by {
            if i < items.len() - 1 {
                assert(items.drop_last()[i] == items[i]);
            }
        }
    }
}

pub broadcast proof fn lemma_member_views_of_props(ms: Seq<(String, JsonValue)>)
    ensures
        (#[trigger] member_views_of(ms)).len() == ms.len(),
        forall|i: int|
            0 <= i < ms.len() ==> member_views_of(ms)[i] == (ms[i].0@, ms[i].1@),
    decreases ms.len(),
{
    reveal_with_fuel(member_views_of, 2);
    if ms.len() > 0 {
        lemma_member_views_of_props(ms.drop_last());
        assert forall|i: int| 0 <= i < ms.len() implies member_views_of(ms)[i] == (
            ms[i].0@,
            ms[i].1@,
        ) by {
            if i < ms.len() - 1 {
                assert(ms.drop_last()[i] == ms[i]);
            }
        }
    }
}

/// The one-step unfolding of the view, available by trigger even inside
/// recursive functions.
pub broadcast proof fn lemma_view_unfold(v: JsonValue)
    ensures
        #[trigger] v@ == (match v {
            JsonValue::Null => JsonView::Null,
            JsonValue::Bool(b) => JsonView::Bool(b),
            JsonValue::Num(s) => JsonView::Num(s@),
            JsonValue::Str(s) => JsonView::Str(s@),
            JsonValue::Arr(items) => JsonView::Arr(views_of(items@)),
            JsonValue::Obj(members) => JsonView::Obj(member_views_of(members@)),
        }),
{
}

impl Clone for JsonValue {
    /// Deep copy; the view is preserved.
    fn clone(&self) -> (r: Self)
        ensures
            r@ == self@,
        decreases *self,
    {
        broadcast use lemma_views_of_props, lemma_member_views_of_props, lemma_view_unfold;

        match self {
            JsonValue::Null => JsonValue::Null,
            JsonValue::Bool(b) => JsonValue::Bool(*b),
            JsonValue::Num(s) => JsonValue::Num(s.clone()),
            JsonValue::Str(s) => JsonValue::Str(s.clone()),
            JsonValue::Arr(items) => {
                let n = items.len();
                let mut out: Vec<JsonValue> = Vec::new();
                let mut i: usize = 0;
                while i < n
                    invariant
                        i <= n,
                        out@.len() == i,
                        forall|k: int| 0 <= k < i ==> out@[k]@ == items@[k]@,
                    decreases n - i,
                {
                    out.push(items[i].clone());
                    i += 1;
                }
                let r = JsonValue::Arr(out);
                proof {
                    assert(r@->Arr_0 =~= self@->Arr_0);
                    assert(r@ =~= self@);
                }
                r
            },
            JsonValue::Obj(members) => {
                let n = members.len();
                let mut out: Vec<(String, JsonValue)> = Vec::new();
                let mut i: usize = 0;
                while i < n
                    invariant
                        i <= n,
                        out@.len() == i,
                        forall|k: int|
                            0 <= k < i ==> out@[k].0@ == members@[k].0@ && out@[k].1@
                                == members@[k].1@,
                    decreases n - i,
                {
                    let key = members[i].0.clone();
                    let val = members[i].1.clone();
                    out.push((key, val));
                    i += 1;
                }
                let r = JsonValue::Obj(out);
                proof {
                    assert(r@->Obj_0 =~= self@->Obj_0);
                    assert(r@ =~= self@);
                }
                r
            },
        }
    }
}

/// The first member of an object member list with the given key.
pub open spec fn obj_member_of(ms: Seq<(Seq<char>, JsonView)>, key: Seq<char>) -> Option<JsonView>
    decreases ms.len(),
{
    if ms.len() == 0 {
        None
    } else if ms[0].0 == key {
        Some(ms[0].1)
    } else {
        obj_member_of(ms.drop_first(), key)
    }
}

/// The member of a JSON value at a key: the first match in an object,
/// nothing for any other shape.
pub open spec fn obj_member(v: JsonView, key: Seq<char>) -> Option<JsonView> {
    match v {
        JsonView::Obj(ms) => obj_member_of(ms, key),
        _ => None,
    }
}

/// Skipping a non-matching member leaves the lookup unchanged.
pub proof fn lemma_obj_member_skip(ms: Seq<(Seq<char>, JsonView)>, key: Seq<char>, i: int)
    requires
        0 <= i < ms.len(),
        forall|k: int| 0 <= k < i ==> ms[k].0 != key,
    ensures
        obj_member_of(ms, key) == (if ms[i].0 == key {
            Some(ms[i].1)
        } else {
            obj_member_of(ms.skip(i + 1), key)
        }),
    decreases i,
{
    reveal_with_fuel(obj_member_of, 2);
    if i == 0 {
        assert(ms.drop_first() =~= ms.skip(1));
    } else {
        assert(ms.drop_first()[i - 1] == ms[i]);
        assert forall|k: int| 0 <= k < i - 1 implies ms.drop_first()[k].0 != key by {
            assert(ms.drop_first()[k] == ms[k + 1]);
        }
        lemma_obj_member_skip(ms.drop_first(), key, i - 1);
        assert(ms.drop_first().skip(i) =~= ms.skip(i + 1));
    }
}

impl JsonValue {
    /// Structural equality of the views, decided executably.
    pub fn eq_value(&self, other: &JsonValue) -> (r: bool)
        ensures
            r == (self@ == other@),
        decreases *self,
    {
        broadcast use lemma_views_of_props, lemma_member_views_of_props, lemma_view_unfold;

        match (self, other) {
            (JsonValue::Null, JsonValue::Null) => true,
            (JsonValue::Bool(a), JsonValue::Bool(b)) => *a == *b,
            (JsonValue::Num(a), JsonValue::Num(b)) => crate::strutil::str_eq(
                a.as_str(),
                b.as_str(),
            ),
            (JsonValue::Str(a), JsonValue::Str(b)) => crate::strutil::str_eq(
                a.as_str(),
                b.as_str(),
            ),
            (JsonValue::Arr(a), JsonValue::Arr(b)) => {
                if a.len() != b.len() {
                    return false;
                }
                let n = a.len();
                let mut i: usize = 0;
                while i < n
                    invariant
                        i <= n,
                        forall|k: int| 0 <= k < i ==> a@[k]@ == b@[k]@,
                    decreases n - i,
                {
                    if !a[i].eq_value(&b[i]) {
                        proof {
                            assert(self@->Arr_0[i as int] == a@[i as int]@);
                            assert(other@->Arr_0[i as int] == b@[i as int]@);
                        }
                        return false;
                    }
                    i += 1;
                }
                proof {
                    assert(self@->Arr_0 =~= other@->Arr_0);
                    assert(self@ =~= other@);
                }
                true
            },
            (JsonValue::Obj(a), JsonValue::Obj(b)) => {
                if a.len() != b.len() {
                    return false;
                }
                let n = a.len();
                let mut i: usize = 0;
                while i < n
                    invariant
                        i <= n,
                        forall|k: int|
                            0 <= k < i ==> a@[k].0@ == b@[k].0@ && a@[k].1@ == b@[k].1@,
                    decreases n - i,
                {
                    let keys_eq = a[i].0 == b[i].0;
                    if !keys_eq || !a[i].1.eq_value(&b[i].1) {
                        proof {
                            assert(self@->Obj_0[i as int] == (a@[i as int].0@, a@[i as int].1@));
                            assert(other@->Obj_0[i as int] == (b@[i as int].0@, b@[i as int].1@));
                        }
                        return false;
                    }
                    i += 1;
                }
                proof {
                    assert(self@->Obj_0 =~= other@->Obj_0);
                    assert(self@ =~= other@);
                }
                true
            },
            _ => false,
        }
    }

    /// Look up a member of an object, first match first; `None` for
    /// non-objects and missing keys.
    pub fn get_member(&self, key: &str) -> (r: Option<&JsonValue>)
        ensures
            r matches Some(v) ==> obj_member(self@, key@) == Some(v@),
            r is None ==> obj_member(self@, key@) is None,
    {
        broadcast use lemma_member_views_of_props, lemma_view_unfold;

        match self {
            JsonValue::Obj(members) => {
                let ghost ms = self@->Obj_0;
                let n = members.len();
                let mut i: usize = 0;
                while i < n
                    invariant
                        i <= n,
                        forall|k: int| 0 <= k < i ==> members@[k].0@ != key@,
                    decreases n - i,
                {
                    if crate::strutil::str_eq(members[i].0.as_str(), key) {
                        proof {
                            assert(ms[i as int] == (members@[i as int].0@, members@[i as int].1@));
                            assert forall|k: int| 0 <= k < i implies ms[k].0 != key@ by {
                                assert(ms[k] == (members@[k].0@, members@[k].1@));
                            }
                            lemma_obj_member_skip(ms, key@, i as int);
                        }
                        return Some(&members[i].1);
                    }
                    i += 1;
                }
                proof {
                    assert forall|k: int| 0 <= k < ms.len() implies ms[k].0 != key@ by {
                        assert(ms[k] == (members@[k].0@, members@[k].1@));
                    }
                    lemma_obj_member_absent(ms, key@);
                }
                None
            },
            _ => None,
        }
    }

    /// Whether this value is an object.
    pub fn is_object(&self) -> (r: bool)
        ensures
            r == (self@ is Obj),
    {
        match self {
            JsonValue::Obj(_) => true,
            _ => false,
        }
    }

    /// Whether this value is null.
    pub fn is_null(&self) -> (r: bool)
        ensures
            r == (self@ is Null),
    {
        match self {
            JsonValue::Null => true,
            _ => false,
        }
    }
}

/// A key that no member carries is never found.
pub proof fn lemma_obj_member_absent(ms: Seq<(Seq<char>, JsonView)>, key: Seq<char>)
    requires
        forall|k: int| 0 <= k < ms.len() ==> ms[k].0 != key,
    ensures
        obj_member_of(ms, key) is None,
    decreases ms.len(),
{
    reveal_with_fuel(obj_member_of, 2);
    if ms.len() > 0 {
        assert forall|k: int| 0 <= k < ms.drop_first().len() implies ms.drop_first()[k].0
            != key by {
            assert(ms.drop_first()[k] == ms[k + 1]);
        }
        lemma_obj_member_absent(ms.drop_first(), key);
    }
}

/// What the JSON grammar assigns to a byte sequence: the value of the one
/// document it spells, if it spells one.
pub uninterp spec fn json_of(bytes: Seq<u8>) -> Option<JsonView>;

/// Relies on serde_json::from_slice: parsing is a function of the bytes
/// alone, succeeds exactly on valid JSON documents, and hands objects over
/// in key order.
#[verifier::external_body]
pub fn parse_json(bytes: &[u8]) -> (r: Result<JsonValue, String>)
    ensures
        r matches Ok(v) ==> json_of(bytes@) == Some(v@),
        r is Ok <==> json_of(bytes@) is Some,
{
    match serde_json::from_slice::<serde_json::Value>(bytes) {
        Ok(v) => Ok(convert_json(&v)),
        Err(e) => Err(e.to_string()),
    }
}

/// serde_json's dynamic JSON value, declared so that the conversion below
/// can take it; it stays opaque to the proofs.
#[verifier::external_type_specification]
#[verifier::external_body]
pub struct ExSerdeJsonValue(serde_json::Value);

/// Relies on serde_json::Value's shape: each variant is carried over one
/// for one, numbers as their decimal text, object members in the key order
/// serde_json's map iterates in.
#[verifier::external_body]
fn convert_json(v: &serde_json::Value) -> JsonValue {
    match v {
        serde_json::Value::Null => JsonValue::Null,
        serde_json::Value::Bool(b) => JsonValue::Bool(*b),
        serde_json::Value::Number(n) => JsonValue::Num(n.to_string()),
        serde_json::Value::String(s) => JsonValue::Str(s.clone()),
        serde_json::Value::Array(items) => JsonValue::Arr(items.iter().map(convert_json).collect()),
        serde_json::Value::Object(members) => JsonValue::Obj(
            members.iter().map(|(k, x)| (k.clone(), convert_json(x))).collect(),
        ),
    }
}

} // verus!
