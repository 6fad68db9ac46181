//! Poll-based change detection: the deep diff of two JSON snapshots into a
//! delta, and the flattening of a first snapshot into per-leaf inserts.
//!
//! Objects diff by key; arrays compare element-wise by position, a
//! documented limitation where stable element ids are absent; everything
//! else is a scalar write when the values differ.

use vstd::prelude::*;
use vstd::string::{StrSliceExecFns, StringExecFns};
use crate::crdt::Delta;
use crate::hlc::{ts_ceiling, ts_le, ts_lt, Hlc, Timestamp};
use crate::json::{obj_member, JsonValue, JsonView};

verus! {

broadcast use vstd::std_specs::vec::axiom_vec_index_decreases,
    vstd::std_specs::vec::axiom_vec_decreases_to_view;

/// The decimal text of an unsigned number.
pub open spec fn spec_udec(n: u64) -> Seq<char>
    decreases n,
{
    if n < 10 {
        seq![spec_dec_digit(n)]
    } else {
        spec_udec(n / 10) + seq![spec_dec_digit(n % 10)]
    }
}

/// The decimal digit of a value below ten.
pub open spec fn spec_dec_digit(n: u64) -> char {
    if n == 0 {
        '0'
    } else if n == 1 {
        '1'
    } else if n == 2 {
        '2'
    } else if n == 3 {
        '3'
    } else if n == 4 {
        '4'
    } else if n == 5 {
        '5'
    } else if n == 6 {
        '6'
    } else if n == 7 {
        '7'
    } else if n == 8 {
        '8'
    } else {
        '9'
    }
}

/// The one-character string of a decimal digit.
fn dec_digit_str(n: u64) -> (r: &'static str)
    requires
        n < 10,
    ensures
        r@ == seq![spec_dec_digit(n)],
{
    proof {
        reveal_strlit("0");
        reveal_strlit("1");
        reveal_strlit("2");
        reveal_strlit("3");
        reveal_strlit("4");
        reveal_strlit("5");
        reveal_strlit("6");
        reveal_strlit("7");
        reveal_strlit("8");
        reveal_strlit("9");
    }
    if n == 0 {
        "0"
    } else if n == 1 {
        "1"
    } else if n == 2 {
        "2"
    } else if n == 3 {
        "3"
    } else if n == 4 {
        "4"
    } else if n == 5 {
        "5"
    } else if n == 6 {
        "6"
    } else if n == 7 {
        "7"
    } else if n == 8 {
        "8"
    } else {
        "9"
    }
}

/// Render an unsigned number as decimal text.
pub fn u64_to_dec(n: u64) -> (r: String)
    ensures
        r@ == spec_udec(n),
    decreases n,
{
    if n < 10 {
        dec_digit_str(n).to_owned()
    } else {
        let mut s = u64_to_dec(n / 10);
        s.append(dec_digit_str(n % 10));
        s
    }
}

/// The decimal text of a 128-bit unsigned number.
pub open spec fn spec_udec128(n: u128) -> Seq<char>
    decreases n,
{
    if n < 10 {
        seq![spec_dec_digit(n as u64)]
    } else {
        spec_udec128(n / 10) + seq![spec_dec_digit((n % 10) as u64)]
    }
}

/// Render a 128-bit unsigned number as decimal text.
pub fn u128_to_dec(n: u128) -> (r: String)
    ensures
        r@ == spec_udec128(n),
    decreases n,
{
    if n < 10 {
        dec_digit_str(n as u64).to_owned()
    } else {
        let mut s = u128_to_dec(n / 10);
        s.append(dec_digit_str((n % 10) as u64));
        s
    }
}

/// A child path under a key: the key alone at the root, else dotted.
pub open spec fn spec_child_path(path: Seq<char>, key: Seq<char>) -> Seq<char> {
    if path.len() == 0 {
        key
    } else {
        path + seq!['.'] + key
    }
}

/// A child path under an array index: `path[i]`.
pub open spec fn spec_index_path(path: Seq<char>, i: u64) -> Seq<char> {
    path + seq!['['] + spec_udec(i) + seq![']']
}

fn child_path(path: &str, key: &str) -> (r: String)
    ensures
        r@ == spec_child_path(path@, key@),
{
    proof {
        reveal_strlit(".");
    }
    if path.is_empty() {
        let r = key.to_owned();
        proof {
            assert(r@ =~= spec_child_path(path@, key@));
        }
        r
    } else {
        let mut r = path.to_owned();
        r.append(".");
        r.append(key);
        proof {
            assert(r@ =~= spec_child_path(path@, key@));
        }
        r
    }
}

fn index_path(path: &str, i: u64) -> (r: String)
    ensures
        r@ == spec_index_path(path@, i),
{
    proof {
        reveal_strlit("[");
        reveal_strlit("]");
    }
    let mut r = path.to_owned();
    r.append("[");
    let d = u64_to_dec(i);
    r.append(d.as_str());
    r.append("]");
    proof {
        assert(r@ =~= spec_index_path(path@, i));
    }
    r
}

/// The inserts the diff of `o` against `n` emits at `path`, in traversal
/// order.
pub open spec fn spec_diff_ins(o: JsonView, n: JsonView, path: Seq<char>) -> Seq<
    (Seq<char>, JsonView),
>
    decreases n, 0int, 0int,
{
    match (o, n) {
        (JsonView::Obj(oms), JsonView::Obj(nms)) => spec_obj_ins(o, nms, path, 0),
        (JsonView::Arr(oa), JsonView::Arr(na)) => spec_arr_ins(oa, na, path, 0),
        _ => {
            if o == n {
                Seq::empty()
            } else {
                seq![(path, n)]
            }
        },
    }
}

/// The removals the diff of `o` against `n` emits at `path`: first the old
/// keys absent from the new object, then what the common keys' diffs emit.
pub open spec fn spec_diff_rem(o: JsonView, n: JsonView, path: Seq<char>) -> Seq<Seq<char>>
    decreases n, 0int, 1int,
{
    match (o, n) {
        (JsonView::Obj(oms), JsonView::Obj(nms)) => spec_obj_absent(oms, n, path, 0)
            + spec_obj_rem(o, nms, path, 0),
        (JsonView::Arr(oa), JsonView::Arr(na)) => spec_arr_rem(oa, na, path, 0),
        _ => Seq::empty(),
    }
}

/// Old keys absent from the new object, as removals, in old order.
pub open spec fn spec_obj_absent(
    oms: Seq<(Seq<char>, JsonView)>,
    n: JsonView,
    path: Seq<char>,
    i: int,
) -> Seq<Seq<char>>
    decreases oms.len() - i,
{
    if i < 0 || i >= oms.len() {
        Seq::empty()
    } else {
        let head: Seq<Seq<char>> = if obj_member(n, oms[i].0) is None {
            seq![spec_child_path(path, oms[i].0)]
        } else {
            Seq::empty()
        };
        head + spec_obj_absent(oms, n, path, i + 1)
    }
}

/// The inserts of the new object's members: changed common keys recurse,
/// fresh keys insert whole.
pub open spec fn spec_obj_ins(
    o: JsonView,
    nms: Seq<(Seq<char>, JsonView)>,
    path: Seq<char>,
    i: int,
) -> Seq<(Seq<char>, JsonView)>
    decreases nms, 1int, nms.len() - i,
{
    if i < 0 || i >= nms.len() {
        Seq::empty()
    } else {
        let head = match obj_member(o, nms[i].0) {
            Some(ov) => spec_diff_ins(ov, nms[i].1, spec_child_path(path, nms[i].0)),
            None => seq![(spec_child_path(path, nms[i].0), nms[i].1)],
        };
        head + spec_obj_ins(o, nms, path, i + 1)
    }
}

/// The removals the new object's common members' diffs emit.
pub open spec fn spec_obj_rem(
    o: JsonView,
    nms: Seq<(Seq<char>, JsonView)>,
    path: Seq<char>,
    i: int,
) -> Seq<Seq<char>>
    decreases nms, 1int, nms.len() - i,
{
    if i < 0 || i >= nms.len() {
        Seq::empty()
    } else {
        let head = match obj_member(o, nms[i].0) {
            Some(ov) => spec_diff_rem(ov, nms[i].1, spec_child_path(path, nms[i].0)),
            None => Seq::empty(),
        };
        head + spec_obj_rem(o, nms, path, i + 1)
    }
}

/// Element-wise array inserts: common positions recurse, new positions
/// insert whole.
pub open spec fn spec_arr_ins(
    oa: Seq<JsonView>,
    na: Seq<JsonView>,
    path: Seq<char>,
    i: int,
) -> Seq<(Seq<char>, JsonView)>
    decreases na, 1int, if oa.len() > na.len() {
        oa.len() - i
    } else {
        na.len() - i
    },
{
    let m = if oa.len() > na.len() {
        oa.len() as int
    } else {
        na.len() as int
    };
    if i < 0 || i >= m {
        Seq::empty()
    } else {
        let head: Seq<(Seq<char>, JsonView)> = if i < oa.len() && i < na.len() {
            spec_diff_ins(oa[i], na[i], spec_index_path(path, i as u64))
        } else if i < na.len() {
            seq![(spec_index_path(path, i as u64), na[i])]
        } else {
            Seq::empty()
        };
        head + spec_arr_ins(oa, na, path, i + 1)
    }
}

/// Element-wise array removals: common positions recurse, vanished
/// positions remove.
pub open spec fn spec_arr_rem(
    oa: Seq<JsonView>,
    na: Seq<JsonView>,
    path: Seq<char>,
    i: int,
) -> Seq<Seq<char>>
    decreases na, 1int, if oa.len() > na.len() {
        oa.len() - i
    } else {
        na.len() - i
    },
{
    let m = if oa.len() > na.len() {
        oa.len() as int
    } else {
        na.len() as int
    };
    if i < 0 || i >= m {
        Seq::empty()
    } else {
        let head: Seq<Seq<char>> = if i < oa.len() && i < na.len() {
            spec_diff_rem(oa[i], na[i], spec_index_path(path, i as u64))
        } else if i < oa.len() {
            seq![spec_index_path(path, i as u64)]
        } else {
            Seq::empty()
        };
        head + spec_arr_rem(oa, na, path, i + 1)
    }
}

/// The per-leaf inserts that flatten a first snapshot: every scalar leaf
/// at its canonical path, and nothing for a scalar at the root.
pub open spec fn spec_flatten(v: JsonView, path: Seq<char>) -> Seq<(Seq<char>, JsonView)>
    decreases v, 0int, 0int,
{
    match v {
        JsonView::Obj(ms) => spec_flatten_members(ms, path, 0),
        JsonView::Arr(items) => spec_flatten_items(items, path, 0),
        _ => {
            if path.len() == 0 {
                Seq::empty()
            } else {
                seq![(path, v)]
            }
        },
    }
}

pub open spec fn spec_flatten_members(
    ms: Seq<(Seq<char>, JsonView)>,
    path: Seq<char>,
    i: int,
) -> Seq<(Seq<char>, JsonView)>
    decreases ms, 1int, ms.len() - i,
{
    if i < 0 || i >= ms.len() {
        Seq::empty()
    } else {
        spec_flatten(ms[i].1, spec_child_path(path, ms[i].0)) + spec_flatten_members(
            ms,
            path,
            i + 1,
        )
    }
}

pub open spec fn spec_flatten_items(
    items: Seq<JsonView>,
    path: Seq<char>,
    i: int,
) -> Seq<(Seq<char>, JsonView)>
    decreases items, 1int, items.len() - i,
{
    if i < 0 || i >= items.len() {
        Seq::empty()
    } else {
        spec_flatten(items[i], spec_index_path(path, i as u64)) + spec_flatten_items(
            items,
            path,
            i + 1,
        )
    }
}

/// The inserts of a diff, with their paths and values.
fn diff_ins_exec(o: &JsonValue, n: &JsonValue, path: &str) -> (r: Vec<(String, JsonValue)>)
    ensures
        r@.map_values(|p: (String, JsonValue)| (p.0@, p.1@)) == spec_diff_ins(o@, n@, path@),
    decreases *n, 0int, 0int,
{
    broadcast use crate::json::lemma_view_unfold, crate::json::lemma_views_of_props,
        crate::json::lemma_member_views_of_props;

    match (o, n) {
        (JsonValue::Obj(_), JsonValue::Obj(nms)) => {
            let r = obj_ins_exec(o, nms, path, 0);
            proof {
                assert(n@->Obj_0 =~= crate::json::member_views_of(nms@));
            }
            r
        },
        (JsonValue::Arr(oa), JsonValue::Arr(na)) => arr_ins_exec(oa, na, path, 0),
        _ => {
            let mut r: Vec<(String, JsonValue)> = Vec::new();
            if !o.eq_value(n) {
                r.push((path.to_owned(), n.clone()));
            }
            proof {
                assert(r@.map_values(|p: (String, JsonValue)| (p.0@, p.1@)) =~= spec_diff_ins(
                    o@,
                    n@,
                    path@,
                ));
            }
            r
        },
    }
}

/// The removals of a diff.
fn diff_rem_exec(o: &JsonValue, n: &JsonValue, path: &str) -> (r: Vec<String>)
    ensures
        r@.map_values(|p: String| p@) == spec_diff_rem(o@, n@, path@),
    decreases *n, 0int, 1int,
{
    broadcast use crate::json::lemma_view_unfold, crate::json::lemma_views_of_props,
        crate::json::lemma_member_views_of_props;

    match (o, n) {
        (JsonValue::Obj(oms), JsonValue::Obj(nms)) => {
            let mut r = obj_absent_exec(oms, n, path, 0);
            let mut common = obj_rem_exec(o, nms, path, 0);
            let ghost absent = r@.map_values(|p: String| p@);
            let ghost commonv = common@.map_values(|p: String| p@);
            r.append(&mut common);
            proof {
                assert(o@->Obj_0 =~= crate::json::member_views_of(oms@));
                assert(n@->Obj_0 =~= crate::json::member_views_of(nms@));
                assert(r@.map_values(|p: String| p@) =~= absent + commonv);
            }
            r
        },
        (JsonValue::Arr(oa), JsonValue::Arr(na)) => arr_rem_exec(oa, na, path, 0),
        _ => {
            let r: Vec<String> = Vec::new();
            proof {
                assert(r@.map_values(|p: String| p@) =~= spec_diff_rem(o@, n@, path@));
            }
            r
        },
    }
}

fn obj_absent_exec(oms: &Vec<(String, JsonValue)>, n: &JsonValue, path: &str, i: usize) -> (r: Vec<
    String,
>)
    requires
        i <= oms@.len(),
    ensures
        r@.map_values(|p: String| p@) == spec_obj_absent(
            crate::json::member_views_of(oms@),
            n@,
            path@,
            i as int,
        ),
    decreases oms@.len() - i,
{
    broadcast use crate::json::lemma_member_views_of_props;

    let ghost gms = crate::json::member_views_of(oms@);
    if i >= oms.len() {
        let r: Vec<String> = Vec::new();
        proof {
            assert(r@.map_values(|p: String| p@) =~= spec_obj_absent(gms, n@, path@, i as int));
        }
        return r;
    }
    let mut head: Vec<String> = Vec::new();
    match n.get_member(oms[i].0.as_str()) {
        Some(_) => {},
        None => {
            head.push(child_path(path, oms[i].0.as_str()));
        },
    }
    let mut rest = obj_absent_exec(oms, n, path, i + 1);
    let ghost headv = head@.map_values(|p: String| p@);
    let ghost restv = rest@.map_values(|p: String| p@);
    head.append(&mut rest);
    proof {
        assert(gms[i as int] == (oms@[i as int].0@, oms@[i as int].1@));
        assert(head@.map_values(|p: String| p@) =~= headv + restv);
        assert(head@.map_values(|p: String| p@) =~= spec_obj_absent(gms, n@, path@, i as int));
    }
    head
}

fn obj_ins_exec(o: &JsonValue, nms: &Vec<(String, JsonValue)>, path: &str, i: usize) -> (r: Vec<
    (String, JsonValue),
>)
    requires
        i <= nms@.len(),
    ensures
        r@.map_values(|p: (String, JsonValue)| (p.0@, p.1@)) == spec_obj_ins(
            o@,
            crate::json::member_views_of(nms@),
            path@,
            i as int,
        ),
    decreases *nms, 1int, nms@.len() - i,
{
    broadcast use crate::json::lemma_member_views_of_props;

    let ghost gms = crate::json::member_views_of(nms@);
    if i >= nms.len() {
        let r: Vec<(String, JsonValue)> = Vec::new();
        proof {
            assert(r@.map_values(|p: (String, JsonValue)| (p.0@, p.1@)) =~= spec_obj_ins(
                o@,
                gms,
                path@,
                i as int,
            ));
        }
        return r;
    }
    let cp = child_path(path, nms[i].0.as_str());
    let mut head: Vec<(String, JsonValue)> = match o.get_member(nms[i].0.as_str()) {
        Some(ov) => diff_ins_exec(ov, &nms[i].1, cp.as_str()),
        None => {
            let mut h: Vec<(String, JsonValue)> = Vec::new();
            h.push((cp, nms[i].1.clone()));
            h
        },
    };
    let mut rest = obj_ins_exec(o, nms, path, i + 1);
    let ghost headv = head@.map_values(|p: (String, JsonValue)| (p.0@, p.1@));
    let ghost restv = rest@.map_values(|p: (String, JsonValue)| (p.0@, p.1@));
    head.append(&mut rest);
    proof {
        assert(gms[i as int] == (nms@[i as int].0@, nms@[i as int].1@));
        assert(head@.map_values(|p: (String, JsonValue)| (p.0@, p.1@)) =~= headv + restv);
        assert(head@.map_values(|p: (String, JsonValue)| (p.0@, p.1@)) =~= spec_obj_ins(
            o@,
            gms,
            path@,
            i as int,
        ));
    }
    head
}

fn obj_rem_exec(o: &JsonValue, nms: &Vec<(String, JsonValue)>, path: &str, i: usize) -> (r: Vec<
    String,
>)
    requires
        i <= nms@.len(),
    ensures
        r@.map_values(|p: String| p@) == spec_obj_rem(
            o@,
            crate::json::member_views_of(nms@),
            path@,
            i as int,
        ),
    decreases *nms, 1int, nms@.len() - i,
{
    broadcast use crate::json::lemma_member_views_of_props;

    let ghost gms = crate::json::member_views_of(nms@);
    if i >= nms.len() {
        let r: Vec<String> = Vec::new();
        proof {
            assert(r@.map_values(|p: String| p@) =~= spec_obj_rem(o@, gms, path@, i as int));
        }
        return r;
    }
    let cp = child_path(path, nms[i].0.as_str());
    let mut head: Vec<String> = match o.get_member(nms[i].0.as_str()) {
        Some(ov) => diff_rem_exec(ov, &nms[i].1, cp.as_str()),
        None => Vec::new(),
    };
    let mut rest = obj_rem_exec(o, nms, path, i + 1);
    let ghost headv = head@.map_values(|p: String| p@);
    let ghost restv = rest@.map_values(|p: String| p@);
    head.append(&mut rest);
    proof {
        assert(gms[i as int] == (nms@[i as int].0@, nms@[i as int].1@));
        assert(head@.map_values(|p: String| p@) =~= headv + restv);
        assert(head@.map_values(|p: String| p@) =~= spec_obj_rem(o@, gms, path@, i as int));
    }
    head
}

fn arr_ins_exec(oa: &Vec<JsonValue>, na: &Vec<JsonValue>, path: &str, i: usize) -> (r: Vec<
    (String, JsonValue),
>)
    ensures
        r@.map_values(|p: (String, JsonValue)| (p.0@, p.1@)) == spec_arr_ins(
            crate::json::views_of(oa@),
            crate::json::views_of(na@),
            path@,
            i as int,
        ),
    decreases *na, 1int, na@.len() + oa@.len() - i,
{
    broadcast use crate::json::lemma_views_of_props;

    let ghost go = crate::json::views_of(oa@);
    let ghost gn = crate::json::views_of(na@);
    let m = if oa.len() > na.len() {
        oa.len()
    } else {
        na.len()
    };
    if i >= m {
        let r: Vec<(String, JsonValue)> = Vec::new();
        proof {
            assert(r@.map_values(|p: (String, JsonValue)| (p.0@, p.1@)) =~= spec_arr_ins(
                go,
                gn,
                path@,
                i as int,
            ));
        }
        return r;
    }
    let ip = index_path(path, i as u64);
    let mut head: Vec<(String, JsonValue)> = if i < oa.len() && i < na.len() {
        diff_ins_exec(&oa[i], &na[i], ip.as_str())
    } else if i < na.len() {
        let mut h: Vec<(String, JsonValue)> = Vec::new();
        h.push((ip, na[i].clone()));
        h
    } else {
        Vec::new()
    };
    let mut rest = arr_ins_exec(oa, na, path, i + 1);
    let ghost headv = head@.map_values(|p: (String, JsonValue)| (p.0@, p.1@));
    let ghost restv = rest@.map_values(|p: (String, JsonValue)| (p.0@, p.1@));
    head.append(&mut rest);
    proof {
        assert(head@.map_values(|p: (String, JsonValue)| (p.0@, p.1@)) =~= headv + restv);
        assert(head@.map_values(|p: (String, JsonValue)| (p.0@, p.1@)) =~= spec_arr_ins(
            go,
            gn,
            path@,
            i as int,
        ));
    }
    head
}

fn arr_rem_exec(oa: &Vec<JsonValue>, na: &Vec<JsonValue>, path: &str, i: usize) -> (r: Vec<String>)
    ensures
        r@.map_values(|p: String| p@) == spec_arr_rem(
            crate::json::views_of(oa@),
            crate::json::views_of(na@),
            path@,
            i as int,
        ),
    decreases *na, 1int, na@.len() + oa@.len() - i,
{
    broadcast use crate::json::lemma_views_of_props;

    let ghost go = crate::json::views_of(oa@);
    let ghost gn = crate::json::views_of(na@);
    let m = if oa.len() > na.len() {
        oa.len()
    } else {
        na.len()
    };
    if i >= m {
        let r: Vec<String> = Vec::new();
        proof {
            assert(r@.map_values(|p: String| p@) =~= spec_arr_rem(go, gn, path@, i as int));
        }
        return r;
    }
    let ip = index_path(path, i as u64);
    let mut head: Vec<String> = if i < oa.len() && i < na.len() {
        diff_rem_exec(&oa[i], &na[i], ip.as_str())
    } else if i < oa.len() {
        let mut h: Vec<String> = Vec::new();
        h.push(ip);
        h
    } else {
        Vec::new()
    };
    let mut rest = arr_rem_exec(oa, na, path, i + 1);
    let ghost headv = head@.map_values(|p: String| p@);
    let ghost restv = rest@.map_values(|p: String| p@);
    head.append(&mut rest);
    proof {
        assert(head@.map_values(|p: String| p@) =~= headv + restv);
        assert(head@.map_values(|p: String| p@) =~= spec_arr_rem(go, gn, path@, i as int));
    }
    head
}

fn flatten_exec(v: &JsonValue, path: &str) -> (r: Vec<(String, JsonValue)>)
    ensures
        r@.map_values(|p: (String, JsonValue)| (p.0@, p.1@)) == spec_flatten(v@, path@),
    decreases *v, 0int, 0int,
{
    broadcast use crate::json::lemma_view_unfold, crate::json::lemma_views_of_props,
        crate::json::lemma_member_views_of_props;

    match v {
        JsonValue::Obj(ms) => {
            let r = flatten_members_exec(ms, path, 0);
            proof {
                assert(v@->Obj_0 =~= crate::json::member_views_of(ms@));
            }
            r
        },
        JsonValue::Arr(items) => flatten_items_exec(items, path, 0),
        _ => {
            let mut r: Vec<(String, JsonValue)> = Vec::new();
            if !path.is_empty() {
                r.push((path.to_owned(), v.clone()));
            }
            proof {
                assert(r@.map_values(|p: (String, JsonValue)| (p.0@, p.1@)) =~= spec_flatten(
                    v@,
                    path@,
                ));
            }
            r
        },
    }
}

fn flatten_members_exec(ms: &Vec<(String, JsonValue)>, path: &str, i: usize) -> (r: Vec<
    (String, JsonValue),
>)
    requires
        i <= ms@.len(),
    ensures
        r@.map_values(|p: (String, JsonValue)| (p.0@, p.1@)) == spec_flatten_members(
            crate::json::member_views_of(ms@),
            path@,
            i as int,
        ),
    decreases *ms, 1int, ms@.len() - i,
{
    broadcast use crate::json::lemma_member_views_of_props;

    let ghost gms = crate::json::member_views_of(ms@);
    if i >= ms.len() {
        let r: Vec<(String, JsonValue)> = Vec::new();
        proof {
            assert(r@.map_values(|p: (String, JsonValue)| (p.0@, p.1@)) =~= spec_flatten_members(
                gms,
                path@,
                i as int,
            ));
        }
        return r;
    }
    let cp = child_path(path, ms[i].0.as_str());
    let mut head = flatten_exec(&ms[i].1, cp.as_str());
    let mut rest = flatten_members_exec(ms, path, i + 1);
    let ghost headv = head@.map_values(|p: (String, JsonValue)| (p.0@, p.1@));
    let ghost restv = rest@.map_values(|p: (String, JsonValue)| (p.0@, p.1@));
    head.append(&mut rest);
    proof {
        assert(gms[i as int] == (ms@[i as int].0@, ms@[i as int].1@));
        assert(head@.map_values(|p: (String, JsonValue)| (p.0@, p.1@)) =~= headv + restv);
        assert(head@.map_values(|p: (String, JsonValue)| (p.0@, p.1@)) =~= spec_flatten_members(
            gms,
            path@,
            i as int,
        ));
    }
    head
}

fn flatten_items_exec(items: &Vec<JsonValue>, path: &str, i: usize) -> (r: Vec<
    (String, JsonValue),
>)
    requires
        i <= items@.len(),
    ensures
        r@.map_values(|p: (String, JsonValue)| (p.0@, p.1@)) == spec_flatten_items(
            crate::json::views_of(items@),
            path@,
            i as int,
        ),
    decreases *items, 1int, items@.len() - i,
{
    broadcast use crate::json::lemma_views_of_props;

    let ghost gi = crate::json::views_of(items@);
    if i >= items.len() {
        let r: Vec<(String, JsonValue)> = Vec::new();
        proof {
            assert(r@.map_values(|p: (String, JsonValue)| (p.0@, p.1@)) =~= spec_flatten_items(
                gi,
                path@,
                i as int,
            ));
        }
        return r;
    }
    let ip = index_path(path, i as u64);
    let mut head = flatten_exec(&items[i], ip.as_str());
    let mut rest = flatten_items_exec(items, path, i + 1);
    let ghost headv = head@.map_values(|p: (String, JsonValue)| (p.0@, p.1@));
    let ghost restv = rest@.map_values(|p: (String, JsonValue)| (p.0@, p.1@));
    head.append(&mut rest);
    proof {
        assert(head@.map_values(|p: (String, JsonValue)| (p.0@, p.1@)) =~= headv + restv);
        assert(head@.map_values(|p: (String, JsonValue)| (p.0@, p.1@)) =~= spec_flatten_items(
            gi,
            path@,
            i as int,
        ));
    }
    head
}

/// What freshly ticked stamps satisfy, relative to the clock that issued
/// them: every stamp lies between the clock's starting and final states,
/// the final state is the last stamp issued (or the start, when nothing
/// was emitted), and — as long as the clock has not reached the
/// representation ceiling — the stamps are strictly above the start,
/// strictly ascending, and so pairwise distinct.
pub open spec fn fresh_stamps(d: crate::crdt::DeltaView, before: Timestamp, after: Timestamp)
    -> bool {
    let ss = crate::crdt::delta_stamps(d);
    &&& forall|k: int|
        0 <= k < ss.len() ==> ts_le(before, #[trigger] ss[k]) && ts_le(ss[k], after)
    &&& (ss.len() > 0 ==> after == ss.last())
    &&& (ss.len() == 0 ==> after == before)
    &&& (!ts_ceiling(after) ==> (forall|k: int|
        0 <= k < ss.len() ==> ts_lt(before, #[trigger] ss[k])) && (forall|k: int, j: int|
        0 <= k < j < ss.len() ==> ts_lt(#[trigger] ss[k], #[trigger] ss[j])))
}

/// Diff two snapshots into a delta: the emitted inserts are exactly the
/// changed and added leaves and subtrees, the removals exactly the
/// vanished keys and positions, each under a fresh local stamp.
pub fn compute_diff(old_snapshot: &JsonValue, new_snapshot: &JsonValue, clock: &mut Hlc) -> (r:
    Delta)
    ensures
        r@.inserts.map_values(|e: (Seq<char>, JsonView, crate::hlc::Timestamp)| (e.0, e.1))
            == spec_diff_ins(old_snapshot@, new_snapshot@, Seq::empty()),
        r@.removes.map_values(|e: (Seq<char>, crate::hlc::Timestamp)| e.0) == spec_diff_rem(
            old_snapshot@,
            new_snapshot@,
            Seq::empty(),
        ),
        ts_le(old(clock).spec_last(), final(clock).spec_last()),
        fresh_stamps(r@, old(clock).spec_last(), final(clock).spec_last()),
{
    let ins = diff_ins_exec(old_snapshot, new_snapshot, "");
    let rems = diff_rem_exec(old_snapshot, new_snapshot, "");
    proof {
        reveal_strlit("");
        assert(""@ =~= Seq::<char>::empty());
    }
    entries_to_delta(ins, rems, clock)
}

/// Flatten a first snapshot into a delta of per-leaf inserts.
pub fn value_to_delta(value: &JsonValue, clock: &mut Hlc) -> (r: Delta)
    ensures
        r@.inserts.map_values(|e: (Seq<char>, JsonView, crate::hlc::Timestamp)| (e.0, e.1))
            == spec_flatten(value@, Seq::empty()),
        r@.removes.len() == 0,
        ts_le(old(clock).spec_last(), final(clock).spec_last()),
        fresh_stamps(r@, old(clock).spec_last(), final(clock).spec_last()),
{
    let ins = flatten_exec(value, "");
    proof {
        reveal_strlit("");
        assert(""@ =~= Seq::<char>::empty());
    }
    let empty_rems: Vec<String> = Vec::new();
    let r = entries_to_delta(ins, empty_rems, clock);
    proof {
        assert(r@.removes.map_values(|e: (Seq<char>, crate::hlc::Timestamp)| e.0).len()
            == r@.removes.len());
        assert(empty_rems@.map_values(|p: String| p@).len() == 0);
    }
    r
}

/// Stamp diff entries into a delta with fresh ticks.
fn entries_to_delta(ins: Vec<(String, JsonValue)>, rems: Vec<String>, clock: &mut Hlc) -> (r:
    Delta)
    ensures
        r@.inserts.map_values(|e: (Seq<char>, JsonView, crate::hlc::Timestamp)| (e.0, e.1))
            == ins@.map_values(|p: (String, JsonValue)| (p.0@, p.1@)),
        r@.removes.map_values(|e: (Seq<char>, crate::hlc::Timestamp)| e.0) == rems@.map_values(
            |p: String| p@,
        ),
        ts_le(old(clock).spec_last(), final(clock).spec_last()),
        fresh_stamps(r@, old(clock).spec_last(), final(clock).spec_last()),
{
    let mut delta = Delta::new();
    let ghost insv = ins@.map_values(|p: (String, JsonValue)| (p.0@, p.1@));
    let ghost remv = rems@.map_values(|p: String| p@);
    let ghost t0 = clock.spec_last();
    let n = ins.len();
    let mut ins = ins;
    let mut i: usize = 0;
    proof {
        assert(delta@.inserts.map_values(
            |e: (Seq<char>, JsonView, crate::hlc::Timestamp)| (e.0, e.1),
        ) =~= insv.take(0));
        assert(crate::crdt::delta_stamps(delta@) =~= Seq::<crate::hlc::Timestamp>::empty());
    }
    while i < n
        invariant
            n == ins@.len(),
            insv == ins@.map_values(|p: (String, JsonValue)| (p.0@, p.1@)),
            i <= n,
            delta@.inserts.map_values(
                |e: (Seq<char>, JsonView, crate::hlc::Timestamp)| (e.0, e.1),
            ) == insv.take(i as int),
            delta@.removes.len() == 0,
            crate::crdt::delta_stamps(delta@).len() == i,
            ts_le(t0, clock.spec_last()),
            forall|k: int|
                0 <= k < i ==> ts_le(t0, #[trigger] crate::crdt::delta_stamps(delta@)[k])
                    && ts_le(crate::crdt::delta_stamps(delta@)[k], clock.spec_last()),
            i > 0 ==> clock.spec_last() == crate::crdt::delta_stamps(delta@).last(),
            i == 0 ==> clock.spec_last() == t0,
            !ts_ceiling(clock.spec_last()) ==> (forall|k: int|
                0 <= k < i ==> ts_lt(t0, #[trigger] crate::crdt::delta_stamps(delta@)[k]))
                && (forall|k: int, j: int|
                0 <= k < j < i ==> ts_lt(
                    #[trigger] crate::crdt::delta_stamps(delta@)[k],
                    #[trigger] crate::crdt::delta_stamps(delta@)[j],
                )),
        decreases n - i,
    {
        let key = ins[i].0.clone();
        let value = ins[i].1.clone();
        let ghost prev_state = clock.spec_last();
        let ghost pre_delta = delta@;
        let ts = clock.tick();
        delta.add_insert(key, value, ts);
        i += 1;
        proof {
            assert(insv.take(i as int) =~= insv.take(i - 1).push(insv[i - 1]));
            assert(delta@.inserts.map_values(
                |e: (Seq<char>, JsonView, crate::hlc::Timestamp)| (e.0, e.1),
            ) =~= insv.take(i as int));
            assert(crate::crdt::delta_stamps(delta@) =~= crate::crdt::delta_stamps(
                pre_delta,
            ).push(ts));
            if !ts_ceiling(clock.spec_last()) {
                assert(!ts_ceiling(prev_state));
            }
        }
    }
    let m = rems.len();
    let mut rems = rems;
    let mut j: usize = 0;
    proof {
        assert(insv.take(n as int) =~= insv);
        assert(delta@.removes.map_values(|e: (Seq<char>, crate::hlc::Timestamp)| e.0)
            =~= remv.take(0));
    }
    while j < m
        invariant
            m == rems@.len(),
            remv == rems@.map_values(|p: String| p@),
            j <= m,
            delta@.inserts.map_values(
                |e: (Seq<char>, JsonView, crate::hlc::Timestamp)| (e.0, e.1),
            ) == insv,
            delta@.removes.map_values(|e: (Seq<char>, crate::hlc::Timestamp)| e.0) == remv.take(
                j as int,
            ),
            crate::crdt::delta_stamps(delta@).len() == n + j,
            ts_le(t0, clock.spec_last()),
            forall|k: int|
                0 <= k < n + j ==> ts_le(t0, #[trigger] crate::crdt::delta_stamps(delta@)[k])
                    && ts_le(crate::crdt::delta_stamps(delta@)[k], clock.spec_last()),
            n + j > 0 ==> clock.spec_last() == crate::crdt::delta_stamps(delta@).last(),
            n + j == 0 ==> clock.spec_last() == t0,
            !ts_ceiling(clock.spec_last()) ==> (forall|k: int|
                0 <= k < n + j ==> ts_lt(t0, #[trigger] crate::crdt::delta_stamps(delta@)[k]))
                && (forall|k: int, jj: int|
                0 <= k < jj < n + j ==> ts_lt(
                    #[trigger] crate::crdt::delta_stamps(delta@)[k],
                    #[trigger] crate::crdt::delta_stamps(delta@)[jj],
                )),
        decreases m - j,
    {
        let key = rems[j].clone();
        let ghost prev_state = clock.spec_last();
        let ghost pre_delta = delta@;
        let ts = clock.tick();
        delta.add_remove(key, ts);
        j += 1;
        proof {
            assert(remv.take(j as int) =~= remv.take(j - 1).push(remv[j - 1]));
            assert(delta@.removes.map_values(|e: (Seq<char>, crate::hlc::Timestamp)| e.0)
                =~= remv.take(j as int));
            assert(delta@.inserts.map_values(
                |e: (Seq<char>, JsonView, crate::hlc::Timestamp)| (e.0, e.1),
            ) =~= insv);
            assert(crate::crdt::delta_stamps(delta@) =~= crate::crdt::delta_stamps(
                pre_delta,
            ).push(ts));
            if !ts_ceiling(clock.spec_last()) {
                assert(!ts_ceiling(prev_state));
            }
        }
    }
    proof {
        assert(remv.take(m as int) =~= remv);
    }
    delta
}

/// Configuration of the polling change detector.
#[derive(Debug, PartialEq, Eq)]
pub struct FaaastPollerConfig {
    /// Base URL of the server; must be HTTPS
    pub base_url: String,
    /// Polling interval in milliseconds
    pub poll_interval_ms: u64,
    /// Custom CA certificate path, for self-signed certificates
    pub ca_cert_path: Option<String>,
    /// Client certificate path, for mutual TLS
    pub client_cert_path: Option<String>,
    /// Client key path, for mutual TLS
    pub client_key_path: Option<String>,
    /// Bearer token for authentication
    pub bearer_token: Option<String>,
}

impl Default for FaaastPollerConfig {
    /// Local HTTPS endpoint, polled every five seconds, no credentials.
    fn default() -> (r: FaaastPollerConfig)
        ensures
            r.base_url@ == "https://localhost:8443"@,
            r.poll_interval_ms == 5000,
            r.ca_cert_path is None,
            r.client_cert_path is None,
            r.client_key_path is None,
            r.bearer_token is None,
    {
        FaaastPollerConfig {
            base_url: String::from_str("https://localhost:8443"),
            poll_interval_ms: 5000,
            ca_cert_path: None,
            client_cert_path: None,
            client_key_path: None,
            bearer_token: None,
        }
    }
}

/// Errors of the polling change detector.
#[derive(Debug, PartialEq, Eq)]
pub enum PollerError {
    /// The endpoint is not HTTPS, which the polled server requires
    HttpsRequired,
    /// The HTTP client could not be built
    ClientInit(String),
    /// A fetch failed
    Fetch(String),
}

impl PollerError {
    /// A human-readable rendering of the error.
    pub fn message(&self) -> (r: &str) {
        match self {
            PollerError::HttpsRequired => "the endpoint must be HTTPS",
            PollerError::ClientInit(s) => s.as_str(),
            PollerError::Fetch(s) => s.as_str(),
        }
    }
}

impl FaaastPollerConfig {
    /// Check the HTTPS requirement: accepted exactly when the base URL
    /// starts with `https://`.
    pub fn require_https(&self) -> (r: Result<(), PollerError>)
        ensures
            r is Ok <==> (self.base_url@.len() >= 8 && self.base_url@.take(8) == "https://"@),
            r matches Err(e) ==> e is HttpsRequired,
    {
        proof {
            reveal_strlit("https://");
        }
        let chars = crate::strutil::str_to_chars(self.base_url.as_str());
        if chars.len() < 8 {
            proof {
                assert(self.base_url@.len() < 8);
            }
            return Err(PollerError::HttpsRequired);
        }
        let expect = crate::strutil::str_to_chars("https://");
        let mut i: usize = 0;
        while i < 8
            invariant
                chars@ == self.base_url@,
                chars@.len() >= 8,
                expect@ == "https://"@,
                expect@.len() == 8,
                i <= 8,
                forall|k: int| 0 <= k < i ==> chars@[k] == expect@[k],
            decreases 8 - i,
        {
            if chars[i] != expect[i] {
                proof {
                    assert(self.base_url@.take(8)[i as int] != "https://"@[i as int]);
                }
                return Err(PollerError::HttpsRequired);
            }
            i += 1;
        }
        proof {
            assert(self.base_url@.take(8) =~= "https://"@);
        }
        Ok(())
    }
}

} // verus!
