//! The wire codec: CBOR encoding of the protocol's values.
//!
//! The encoders always carry a header's argument in the eight-byte form,
//! which is valid CBOR though not the shortest; the decoders accept any
//! argument width. Every decoder is proved to invert the encoder.

use vstd::prelude::*;
use vstd::utf8::{decode_utf8, encode_utf8, encode_utf8_decode_utf8, encode_utf8_valid_utf8};
use crate::bytes_be::{
    lemma_be_bytes_properties, lemma_u64_be_from_to, spec_u64_from_be_bytes,
    spec_u64_to_be_bytes, u64_from_be_bytes, u64_to_be_bytes,
};
use crate::json::{member_views_of, views_of, JsonValue, JsonView};
use crate::strutil::string_from_utf8;

verus! {

/// Whether `prefix` occurs in `b` at position `pos`.
pub open spec fn starts_with_at(b: Seq<u8>, pos: int, prefix: Seq<u8>) -> bool {
    0 <= pos && pos + prefix.len() <= b.len() && b.subrange(pos, pos + prefix.len()) == prefix
}

/// A prefix match determines any inner window of the prefix.
pub proof fn lemma_starts_with_window(b: Seq<u8>, pos: int, p: Seq<u8>, k1: int, k2: int)
    requires
        starts_with_at(b, pos, p),
        0 <= k1 <= k2 <= p.len(),
    ensures
        b.subrange(pos + k1, pos + k2) == p.subrange(k1, k2),
{
    assert forall|j: int| 0 <= j < k2 - k1 implies b.subrange(pos + k1, pos + k2)[j] == p.subrange(
        k1,
        k2,
    )[j] by {
        assert(b.subrange(pos, pos + p.len() as int)[k1 + j] == p[k1 + j]);
    }
    assert(b.subrange(pos + k1, pos + k2) =~= p.subrange(k1, k2));
}

/// A CBOR item header with the eight-byte argument form: the initial byte
/// carries the major type and additional information 27, then the argument
/// big-endian.
pub open spec fn spec_head(major: u8, v: u64) -> Seq<u8>
    recommends
        major < 8,
{
    seq![(major * 32 + 27) as u8] + spec_u64_to_be_bytes(v)
}

/// Append a header.
pub fn enc_head(out: &mut Vec<u8>, major: u8, v: u64)
    requires
        major < 8,
    ensures
        final(out)@ == old(out)@ + spec_head(major, v),
{
    proof {
        lemma_be_bytes_properties();
    }
    out.push(major * 32 + 27);
    let mut be = u64_to_be_bytes(v);
    let mut i: usize = 0;
    while i < 8
        invariant
            be@ == spec_u64_to_be_bytes(v),
            be@.len() == 8,
            i <= 8,
            out@ == old(out)@ + seq![(major * 32 + 27) as u8] + be@.take(i as int),
        decreases 8 - i,
    {
        out.push(be[i]);
        i += 1;
        proof {
            assert(be@.take(i as int) =~= be@.take(i - 1).push(be@[i - 1]));
        }
    }
    proof {
        assert(be@.take(8) =~= be@);
        assert(out@ =~= old(out)@ + spec_head(major, v));
    }
}

/// Append a byte slice.
pub fn enc_raw(out: &mut Vec<u8>, bytes: &[u8])
    ensures
        final(out)@ == old(out)@ + bytes@,
{
    let n = bytes.len();
    let mut i: usize = 0;
    while i < n
        invariant
            n == bytes@.len(),
            i <= n,
            out@ == old(out)@ + bytes@.take(i as int),
        decreases n - i,
    {
        out.push(bytes[i]);
        i += 1;
        proof {
            assert(bytes@.take(i as int) =~= bytes@.take(i - 1).push(bytes@[i - 1]));
        }
    }
    proof {
        assert(bytes@.take(n as int) =~= bytes@);
        assert(out@ =~= old(out)@ + bytes@);
    }
}

/// The encoding of a byte string.
pub open spec fn spec_enc_bytes(b: Seq<u8>) -> Seq<u8> {
    spec_head(2, b.len() as u64) + b
}

/// The encoding of a text string: its UTF-8 bytes behind a text header.
pub open spec fn spec_enc_text(s: Seq<char>) -> Seq<u8> {
    spec_head(3, encode_utf8(s).len() as u64) + encode_utf8(s)
}

/// The header opening an array of `n` items.
pub open spec fn spec_enc_array(n: u64) -> Seq<u8> {
    spec_head(4, n)
}

/// The header opening a map of `n` pairs.
pub open spec fn spec_enc_map(n: u64) -> Seq<u8> {
    spec_head(5, n)
}

/// The one-byte encodings of false, true and null.
pub open spec fn spec_enc_bool(b: bool) -> Seq<u8> {
    if b {
        seq![0xf5u8]
    } else {
        seq![0xf4u8]
    }
}

pub open spec fn spec_enc_null() -> Seq<u8> {
    seq![0xf6u8]
}

/// Append a byte string.
pub fn enc_bytes(out: &mut Vec<u8>, bytes: &[u8])
    requires
        bytes@.len() <= u64::MAX,
    ensures
        final(out)@ == old(out)@ + spec_enc_bytes(bytes@),
{
    enc_head(out, 2, bytes.len() as u64);
    enc_raw(out, bytes);
    proof {
        assert(out@ =~= old(out)@ + spec_enc_bytes(bytes@));
    }
}

/// Append a text string.
pub fn enc_text(out: &mut Vec<u8>, s: &str)
    ensures
        final(out)@ == old(out)@ + spec_enc_text(s@),
{
    let b = s.as_bytes();
    enc_head(out, 3, b.len() as u64);
    enc_raw(out, b);
    proof {
        assert(out@ =~= old(out)@ + spec_enc_text(s@));
    }
}

/// What a prefix match of a header gives at the match site.
pub proof fn lemma_head_at(b: Seq<u8>, pos: int, m: u8, v: u64)
    requires
        m < 8,
        starts_with_at(b, pos, spec_head(m, v)),
    ensures
        pos + 9 <= b.len(),
        b[pos] == m * 32 + 27,
        b[pos] % 32 == 27,
        b[pos] / 32 == m,
        b.subrange(pos + 1, pos + 9) == spec_u64_to_be_bytes(v),
{
    lemma_be_bytes_properties();
    assert(spec_head(m, v).len() == 9);
    assert(b.subrange(pos, pos + 9)[0] == b[pos]);
    assert(spec_head(m, v)[0] == (m * 32 + 27) as u8);
    lemma_starts_with_window(b, pos, spec_head(m, v), 1, 9);
    assert(spec_head(m, v).subrange(1, 9) =~= spec_u64_to_be_bytes(v));
}

/// The tag number marking a number item: its decimal text follows.
pub open spec fn spec_num_tag() -> u64 {
    999
}

/// The encoding of a JSON value: null, booleans and strings natively,
/// numbers as tagged decimal text, arrays and objects element-wise.
pub open spec fn spec_enc_json(v: crate::json::JsonView) -> Seq<u8>
    decreases v,
{
    match v {
        crate::json::JsonView::Null => spec_enc_null(),
        crate::json::JsonView::Bool(b) => spec_enc_bool(b),
        crate::json::JsonView::Num(s) => spec_head(6, spec_num_tag()) + spec_enc_text(s),
        crate::json::JsonView::Str(s) => spec_enc_text(s),
        crate::json::JsonView::Arr(items) => spec_enc_array(items.len() as u64)
            + spec_enc_json_seq(items),
        crate::json::JsonView::Obj(ms) => spec_enc_map(ms.len() as u64) + spec_enc_json_members(
            ms,
        ),
    }
}

pub open spec fn spec_enc_json_seq(items: Seq<crate::json::JsonView>) -> Seq<u8>
    decreases items,
{
    if items.len() == 0 {
        Seq::empty()
    } else {
        spec_enc_json(items[0]) + spec_enc_json_seq(items.drop_first())
    }
}

pub open spec fn spec_enc_json_members(ms: Seq<(Seq<char>, crate::json::JsonView)>) -> Seq<u8>
    decreases ms,
{
    if ms.len() == 0 {
        Seq::empty()
    } else {
        spec_enc_text(ms[0].0) + spec_enc_json(ms[0].1) + spec_enc_json_members(ms.drop_first())
    }
}

/// Appending one more item appends its encoding.
pub proof fn lemma_enc_json_seq_snoc(items: Seq<crate::json::JsonView>, x: crate::json::JsonView)
    ensures
        spec_enc_json_seq(items.push(x)) == spec_enc_json_seq(items) + spec_enc_json(x),
    decreases items.len(),
{
    reveal_with_fuel(spec_enc_json_seq, 3);
    if items.len() == 0 {
        assert(items.push(x)[0] == x);
        assert(items.push(x).drop_first() =~= Seq::<crate::json::JsonView>::empty());
        assert(spec_enc_json_seq(items.push(x)) =~= spec_enc_json(x));
        assert(spec_enc_json_seq(items) + spec_enc_json(x) =~= spec_enc_json(x));
    } else {
        assert(items.push(x)[0] == items[0]);
        assert(items.push(x).drop_first() =~= items.drop_first().push(x));
        lemma_enc_json_seq_snoc(items.drop_first(), x);
        assert(spec_enc_json_seq(items.push(x)) =~= spec_enc_json_seq(items) + spec_enc_json(x));
    }
}

/// Appending one more member appends its key and value encodings.
pub proof fn lemma_enc_json_members_snoc(
    ms: Seq<(Seq<char>, crate::json::JsonView)>,
    x: (Seq<char>, crate::json::JsonView),
)
    ensures
        spec_enc_json_members(ms.push(x)) == spec_enc_json_members(ms) + spec_enc_text(x.0)
            + spec_enc_json(x.1),
    decreases ms.len(),
{
    reveal_with_fuel(spec_enc_json_members, 3);
    if ms.len() == 0 {
        assert(ms.push(x)[0] == x);
        assert(ms.push(x).drop_first() =~= Seq::<(Seq<char>, crate::json::JsonView)>::empty());
        assert(spec_enc_json_members(ms.push(x)) =~= spec_enc_text(x.0) + spec_enc_json(x.1));
        assert(spec_enc_json_members(ms) + spec_enc_text(x.0) + spec_enc_json(x.1)
            =~= spec_enc_text(x.0) + spec_enc_json(x.1));
    } else {
        assert(ms.push(x)[0] == ms[0]);
        assert(ms.push(x).drop_first() =~= ms.drop_first().push(x));
        lemma_enc_json_members_snoc(ms.drop_first(), x);
        assert(spec_enc_json_members(ms.push(x)) =~= spec_enc_json_members(ms) + spec_enc_text(
            x.0,
        ) + spec_enc_json(x.1));
    }
}

/// Append the encoding of a JSON value.
#[verifier::rlimit(80)]
#[verifier::spinoff_prover]
pub fn enc_json(out: &mut Vec<u8>, v: &crate::json::JsonValue)
    ensures
        final(out)@ == old(out)@ + spec_enc_json(v@),
        json_bounded(v@),
    decreases *v,
{
    broadcast use crate::json::lemma_view_unfold, crate::json::lemma_views_of_props,
        crate::json::lemma_member_views_of_props,
        vstd::std_specs::vec::axiom_vec_index_decreases,
        vstd::std_specs::vec::axiom_vec_decreases_to_view;

    match v {
        crate::json::JsonValue::Null => {
            out.push(0xf6);
            proof {
                assert(out@ =~= old(out)@ + spec_enc_null());
            }
        },
        crate::json::JsonValue::Bool(b) => {
            if *b {
                out.push(0xf5);
            } else {
                out.push(0xf4);
            }
            proof {
                assert(out@ =~= old(out)@ + spec_enc_bool(*b));
            }
        },
        crate::json::JsonValue::Num(s) => {
            enc_head(out, 6, 999);
            enc_text(out, s.as_str());
            let total = out.len();
            proof {
                assert(out@ =~= old(out)@ + spec_enc_json(v@));
                assert(encode_utf8(s@).len() <= total);
            }
        },
        crate::json::JsonValue::Str(s) => {
            enc_text(out, s.as_str());
            let total = out.len();
            proof {
                assert(encode_utf8(s@).len() <= total);
            }
        },
        crate::json::JsonValue::Arr(items) => {
            let n = items.len();
            enc_head(out, 4, n as u64);
            let ghost base = out@;
            let mut i: usize = 0;
            proof {
                assert(v@->Arr_0.take(0) =~= Seq::<crate::json::JsonView>::empty());
                assert(base + spec_enc_json_seq(v@->Arr_0.take(0)) =~= base);
            }
            while i < n
                invariant
                    n == items@.len(),
                    i <= n,
                    v@ is Arr,
                    v@->Arr_0 == crate::json::views_of(items@),
                    v@->Arr_0.len() == n,
                    forall|k: int| 0 <= k < n ==> v@->Arr_0[k] == items@[k]@,
                    forall|k: int| 0 <= k < i ==> json_bounded(#[trigger] v@->Arr_0[k]),
                    out@ == base + spec_enc_json_seq(v@->Arr_0.take(i as int)),
                decreases n - i,
            {
                enc_json(out, &items[i]);
                i += 1;
                proof {
                    lemma_enc_json_seq_snoc(v@->Arr_0.take(i - 1), v@->Arr_0[i - 1]);
                    assert(v@->Arr_0.take(i as int) =~= v@->Arr_0.take(i - 1).push(
                        v@->Arr_0[i - 1],
                    ));
                    assert(out@ =~= base + spec_enc_json_seq(v@->Arr_0.take(i as int)));
                }
            }
            proof {
                assert(v@->Arr_0.take(n as int) =~= v@->Arr_0);
                assert(out@ =~= old(out)@ + spec_enc_json(v@));
                assert(json_bounded(v@));
            }
        },
        crate::json::JsonValue::Obj(members) => {
            let n = members.len();
            enc_head(out, 5, n as u64);
            let ghost base = out@;
            let mut i: usize = 0;
            proof {
                assert(v@->Obj_0.take(0) =~= Seq::<(Seq<char>, crate::json::JsonView)>::empty());
                assert(base + spec_enc_json_members(v@->Obj_0.take(0)) =~= base);
            }
            while i < n
                invariant
                    n == members@.len(),
                    i <= n,
                    v@ is Obj,
                    v@->Obj_0 == crate::json::member_views_of(members@),
                    v@->Obj_0.len() == n,
                    forall|k: int|
                        0 <= k < n ==> v@->Obj_0[k] == (members@[k].0@, members@[k].1@),
                    forall|k: int|
                        0 <= k < i ==> encode_utf8(#[trigger] v@->Obj_0[k].0).len() <= u64::MAX
                            && json_bounded(v@->Obj_0[k].1),
                    out@ == base + spec_enc_json_members(v@->Obj_0.take(i as int)),
                decreases n - i,
            {
                enc_text(out, members[i].0.as_str());
                let mid = out.len();
                proof {
                    assert(encode_utf8(members@[i as int].0@).len() <= mid);
                }
                enc_json(out, &members[i].1);
                i += 1;
                proof {
                    lemma_enc_json_members_snoc(v@->Obj_0.take(i - 1), v@->Obj_0[i - 1]);
                    assert(v@->Obj_0.take(i as int) =~= v@->Obj_0.take(i - 1).push(
                        v@->Obj_0[i - 1],
                    ));
                    assert(out@ =~= base + spec_enc_json_members(v@->Obj_0.take(i as int)));
                }
            }
            proof {
                assert(v@->Obj_0.take(n as int) =~= v@->Obj_0);
                assert(out@ =~= old(out)@ + spec_enc_json(v@));
                assert(json_bounded(v@));
            }
        },
    }
}


/// Whether a JSON value's strings and collections fit the wire's length
/// fields; every value an encoder actually meets does.
pub open spec fn json_bounded(v: JsonView) -> bool
    decreases v,
{
    match v {
        JsonView::Null => true,
        JsonView::Bool(_) => true,
        JsonView::Num(s) => encode_utf8(s).len() <= u64::MAX,
        JsonView::Str(s) => encode_utf8(s).len() <= u64::MAX,
        JsonView::Arr(items) => items.len() <= u64::MAX && (forall|i: int|
            0 <= i < items.len() ==> json_bounded(#[trigger] items[i])),
        JsonView::Obj(ms) => ms.len() <= u64::MAX && (forall|i: int|
            0 <= i < ms.len() ==> encode_utf8(#[trigger] ms[i].0).len() <= u64::MAX
                && json_bounded(ms[i].1)),
    }
}

/// The item header at a position: its major type and argument, accepted
/// in any of the direct, one-, two-, four- or eight-byte argument forms.
pub open spec fn spec_item_head_at(b: Seq<u8>, pos: int) -> Option<(u8, u64, int)> {
    if 0 <= pos < b.len() {
        let major = (b[pos] / 32) as u8;
        let addl = b[pos] % 32;
        if addl < 24 {
            Some((major, addl as u64, pos + 1))
        } else if addl == 24 && pos + 2 <= b.len() {
            Some((major, b[pos + 1] as u64, pos + 2))
        } else if addl == 25 && pos + 3 <= b.len() {
            Some((major, (b[pos + 1] * 256 + b[pos + 2]) as u64, pos + 3))
        } else if addl == 26 && pos + 5 <= b.len() {
            Some(
                (
                    major,
                    (b[pos + 1] * 0x1000000 + b[pos + 2] * 0x10000 + b[pos + 3] * 0x100 + b[pos
                        + 4]) as u64,
                    pos + 5,
                ),
            )
        } else if addl == 27 && pos + 9 <= b.len() {
            Some((major, spec_u64_from_be_bytes(b.subrange(pos + 1, pos + 9)), pos + 9))
        } else {
            None
        }
    } else {
        None
    }
}

/// The text item at a position.
pub open spec fn spec_dec_text_at(b: Seq<u8>, pos: int) -> Option<(Seq<char>, int)> {
    match spec_item_head_at(b, pos) {
        Some((m, len, p)) => if m == 3 && p + len <= b.len() && vstd::utf8::valid_utf8(
            b.subrange(p, p + len),
        ) {
            Some((decode_utf8(b.subrange(p, p + len)), p + len))
        } else {
            None
        },
        None => None,
    }
}

/// The JSON value at a position, and where it ends.
pub open spec fn spec_dec_json_at(b: Seq<u8>, pos: int) -> Option<(JsonView, int)>
    decreases b.len() - pos, 0int, 0int,
    when pos >= 0
{
    if pos >= b.len() {
        None
    } else if b[pos] == 0xf6 {
        Some((JsonView::Null, pos + 1))
    } else if b[pos] == 0xf4 {
        Some((JsonView::Bool(false), pos + 1))
    } else if b[pos] == 0xf5 {
        Some((JsonView::Bool(true), pos + 1))
    } else {
        match spec_item_head_at(b, pos) {
            Some((m, len, p)) => {
                if m == 3 {
                    match spec_dec_text_at(b, pos) {
                        Some((s, p2)) => Some((JsonView::Str(s), p2)),
                        None => None,
                    }
                } else if m == 6 && len == spec_num_tag() {
                    match spec_dec_text_at(b, p) {
                        Some((s, p2)) => Some((JsonView::Num(s), p2)),
                        None => None,
                    }
                } else if m == 4 {
                    match spec_dec_json_seq_at(b, p, len) {
                        Some((items, p2)) => Some((JsonView::Arr(items), p2)),
                        None => None,
                    }
                } else if m == 5 {
                    match spec_dec_json_members_at(b, p, len) {
                        Some((ms, p2)) => Some((JsonView::Obj(ms), p2)),
                        None => None,
                    }
                } else {
                    None
                }
            },
            None => None,
        }
    }
}

/// `n` consecutive JSON items from a position.
pub open spec fn spec_dec_json_seq_at(b: Seq<u8>, pos: int, n: u64) -> Option<
    (Seq<JsonView>, int),
>
    decreases b.len() - pos, 1int, n,
    when pos >= 0
{
    if n == 0 {
        Some((Seq::empty(), pos))
    } else {
        match spec_dec_json_at(b, pos) {
            Some((v, p)) => if pos < p && p <= b.len() {
                match spec_dec_json_seq_at(b, p, (n - 1) as u64) {
                    Some((rest, p2)) => Some((seq![v] + rest, p2)),
                    None => None,
                }
            } else {
                None
            },
            None => None,
        }
    }
}

/// `n` consecutive key/value pairs from a position.
pub open spec fn spec_dec_json_members_at(b: Seq<u8>, pos: int, n: u64) -> Option<
    (Seq<(Seq<char>, JsonView)>, int),
>
    decreases b.len() - pos, 1int, n,
    when pos >= 0
{
    if n == 0 {
        Some((Seq::empty(), pos))
    } else {
        match spec_dec_text_at(b, pos) {
            Some((k, p1)) => if pos < p1 && p1 <= b.len() {
                match spec_dec_json_at(b, p1) {
                    Some((v, p)) => if p1 < p && p <= b.len() {
                        match spec_dec_json_members_at(b, p, (n - 1) as u64) {
                            Some((rest, p2)) => Some((seq![(k, v)] + rest, p2)),
                            None => None,
                        }
                    } else {
                        None
                    },
                    None => None,
                }
            } else {
                None
            },
            None => None,
        }
    }
}


/// A prefix match of a concatenation matches both halves in place.
pub proof fn lemma_starts_with_concat(b: Seq<u8>, pos: int, x: Seq<u8>, y: Seq<u8>)
    requires
        starts_with_at(b, pos, x + y),
    ensures
        starts_with_at(b, pos, x),
        starts_with_at(b, pos + x.len(), y),
{
    lemma_starts_with_window(b, pos, x + y, 0, x.len() as int);
    assert((x + y).subrange(0, x.len() as int) =~= x);
    lemma_starts_with_window(b, pos, x + y, x.len() as int, (x + y).len() as int);
    assert((x + y).subrange(x.len() as int, (x + y).len() as int) =~= y);
}

/// A header written in the eight-byte form reads back as written.
pub proof fn lemma_head_match(b: Seq<u8>, pos: int, m: u8, v: u64)
    requires
        m < 8,
        starts_with_at(b, pos, spec_head(m, v)),
    ensures
        spec_item_head_at(b, pos) == Some((m, v, pos + 9)),
        b[pos] == m * 32 + 27,
{
    lemma_head_at(b, pos, m, v);
    lemma_u64_be_from_to();
    assert(spec_u64_from_be_bytes(b.subrange(pos + 1, pos + 9)) == v);
    assert((m * 32 + 27) / 32 == m);
}

/// Every JSON encoding is non-empty.
pub proof fn lemma_enc_json_len(jv: JsonView)
    ensures
        spec_enc_json(jv).len() >= 1,
{
    lemma_be_bytes_properties();
}

/// A text item reads back as written.
pub proof fn lemma_text_roundtrip(b: Seq<u8>, pos: int, s: Seq<char>)
    requires
        encode_utf8(s).len() <= u64::MAX,
        starts_with_at(b, pos, spec_enc_text(s)),
    ensures
        spec_dec_text_at(b, pos) == Some((s, pos + spec_enc_text(s).len())),
        pos + spec_enc_text(s).len() <= b.len(),
{
    broadcast use encode_utf8_valid_utf8;

    lemma_be_bytes_properties();
    assert(spec_enc_text(s) =~= spec_head(3, encode_utf8(s).len() as u64) + encode_utf8(s));
    lemma_starts_with_concat(b, pos, spec_head(3, encode_utf8(s).len() as u64), encode_utf8(s));
    lemma_head_match(b, pos, 3, encode_utf8(s).len() as u64);
    let p = pos + 9;
    let len = encode_utf8(s).len() as int;
    assert(b.subrange(p, p + len) == encode_utf8(s)) by {
        lemma_starts_with_window(b, p, encode_utf8(s), 0, len);
        assert(encode_utf8(s).subrange(0, len) =~= encode_utf8(s));
    }
    encode_utf8_decode_utf8(s);
}

/// A JSON value reads back as written.
pub proof fn lemma_json_roundtrip(b: Seq<u8>, pos: int, jv: JsonView)
    requires
        json_bounded(jv),
        starts_with_at(b, pos, spec_enc_json(jv)),
    ensures
        spec_dec_json_at(b, pos) == Some((jv, pos + spec_enc_json(jv).len())),
    decreases jv, 0int,
{
    lemma_be_bytes_properties();
    match jv {
        JsonView::Null => {
            assert(b.subrange(pos, pos + 1)[0] == b[pos]);
            assert(b[pos] == 0xf6);
        },
        JsonView::Bool(bb) => {
            assert(b.subrange(pos, pos + 1)[0] == b[pos]);
            if bb {
                assert(b[pos] == 0xf5);
            } else {
                assert(b[pos] == 0xf4);
            }
        },
        JsonView::Str(s) => {
            assert(spec_enc_json(jv) == spec_enc_text(s));
            lemma_text_roundtrip(b, pos, s);
            assert(spec_enc_text(s) =~= spec_head(3, encode_utf8(s).len() as u64)
                + encode_utf8(s));
            lemma_starts_with_concat(
                b,
                pos,
                spec_head(3, encode_utf8(s).len() as u64),
                encode_utf8(s),
            );
            lemma_head_match(b, pos, 3, encode_utf8(s).len() as u64);
            assert(b[pos] == 3 * 32 + 27);
        },
        JsonView::Num(s) => {
            assert(spec_enc_json(jv) =~= spec_head(6, spec_num_tag()) + spec_enc_text(s));
            lemma_starts_with_concat(b, pos, spec_head(6, spec_num_tag()), spec_enc_text(s));
            lemma_head_match(b, pos, 6, spec_num_tag());
            lemma_text_roundtrip(b, pos + 9, s);
            assert(b[pos] == 6 * 32 + 27);
        },
        JsonView::Arr(items) => {
            assert(spec_enc_json(jv) =~= spec_enc_array(items.len() as u64) + spec_enc_json_seq(
                items,
            ));
            lemma_starts_with_concat(
                b,
                pos,
                spec_enc_array(items.len() as u64),
                spec_enc_json_seq(items),
            );
            lemma_head_match(b, pos, 4, items.len() as u64);
            lemma_json_seq_roundtrip(b, pos + 9, items);
            assert(b[pos] == 4 * 32 + 27);
        },
        JsonView::Obj(ms) => {
            assert(spec_enc_json(jv) =~= spec_enc_map(ms.len() as u64) + spec_enc_json_members(
                ms,
            ));
            lemma_starts_with_concat(
                b,
                pos,
                spec_enc_map(ms.len() as u64),
                spec_enc_json_members(ms),
            );
            lemma_head_match(b, pos, 5, ms.len() as u64);
            lemma_json_members_roundtrip(b, pos + 9, ms);
            assert(b[pos] == 5 * 32 + 27);
        },
    }
}

/// A run of JSON items reads back as written.
pub proof fn lemma_json_seq_roundtrip(b: Seq<u8>, pos: int, items: Seq<JsonView>)
    requires
        items.len() <= u64::MAX,
        forall|i: int| 0 <= i < items.len() ==> json_bounded(#[trigger] items[i]),
        starts_with_at(b, pos, spec_enc_json_seq(items)),
    ensures
        spec_dec_json_seq_at(b, pos, items.len() as u64) == Some(
            (items, pos + spec_enc_json_seq(items).len()),
        ),
    decreases items, 1int,
{
    reveal_with_fuel(spec_enc_json_seq, 2);
    if items.len() == 0 {
        assert(spec_enc_json_seq(items).len() == 0);
    } else {
        let head = spec_enc_json(items[0]);
        let rest = items.drop_first();
        assert(spec_enc_json_seq(items) =~= head + spec_enc_json_seq(rest));
        lemma_starts_with_concat(b, pos, head, spec_enc_json_seq(rest));
        lemma_json_roundtrip(b, pos, items[0]);
        lemma_enc_json_len(items[0]);
        let p = pos + head.len() as int;
        assert forall|i: int| 0 <= i < rest.len() implies json_bounded(#[trigger] rest[i]) by {
            assert(rest[i] == items[i + 1]);
        }
        lemma_json_seq_roundtrip(b, p, rest);
        assert(p <= b.len());
        assert(seq![items[0]] + rest =~= items);
    }
}

/// A run of key/value pairs reads back as written.
pub proof fn lemma_json_members_roundtrip(
    b: Seq<u8>,
    pos: int,
    ms: Seq<(Seq<char>, JsonView)>,
)
    requires
        ms.len() <= u64::MAX,
        forall|i: int|
            0 <= i < ms.len() ==> encode_utf8(#[trigger] ms[i].0).len() <= u64::MAX
                && json_bounded(ms[i].1),
        starts_with_at(b, pos, spec_enc_json_members(ms)),
    ensures
        spec_dec_json_members_at(b, pos, ms.len() as u64) == Some(
            (ms, pos + spec_enc_json_members(ms).len()),
        ),
    decreases ms, 1int,
{
    reveal_with_fuel(spec_enc_json_members, 2);
    lemma_be_bytes_properties();
    if ms.len() == 0 {
        assert(spec_enc_json_members(ms).len() == 0);
    } else {
        let ktext = spec_enc_text(ms[0].0);
        let venc = spec_enc_json(ms[0].1);
        let rest = ms.drop_first();
        assert(spec_enc_json_members(ms) =~= ktext + (venc + spec_enc_json_members(rest)));
        lemma_starts_with_concat(b, pos, ktext, venc + spec_enc_json_members(rest));
        lemma_text_roundtrip(b, pos, ms[0].0);
        let p1 = pos + ktext.len() as int;
        lemma_starts_with_concat(b, p1, venc, spec_enc_json_members(rest));
        lemma_json_roundtrip(b, p1, ms[0].1);
        lemma_enc_json_len(ms[0].1);
        let p = p1 + venc.len() as int;
        assert forall|i: int|
            0 <= i < rest.len() implies encode_utf8(#[trigger] rest[i].0).len() <= u64::MAX
            && json_bounded(rest[i].1) by {
            assert(rest[i] == ms[i + 1]);
        }
        lemma_json_members_roundtrip(b, p, rest);
        assert(p <= b.len());
        assert(seq![ms[0]] + rest =~= ms);
    }
}


/// The byte-string item at a position.
pub open spec fn spec_dec_bytes_at(b: Seq<u8>, pos: int) -> Option<(Seq<u8>, int)> {
    match spec_item_head_at(b, pos) {
        Some((m, len, p)) => if m == 2 && p + len <= b.len() {
            Some((b.subrange(p, p + len), p + len))
        } else {
            None
        },
        None => None,
    }
}

/// A byte string reads back as written.
pub proof fn lemma_bytes_roundtrip(b: Seq<u8>, pos: int, x: Seq<u8>)
    requires
        x.len() <= u64::MAX,
        starts_with_at(b, pos, spec_enc_bytes(x)),
    ensures
        spec_dec_bytes_at(b, pos) == Some((x, pos + spec_enc_bytes(x).len())),
        pos + spec_enc_bytes(x).len() <= b.len(),
{
    lemma_be_bytes_properties();
    assert(spec_enc_bytes(x) =~= spec_head(2, x.len() as u64) + x);
    lemma_starts_with_concat(b, pos, spec_head(2, x.len() as u64), x);
    lemma_head_match(b, pos, 2, x.len() as u64);
    let p = pos + 9;
    assert(b.subrange(p, p + x.len() as int) == x) by {
        lemma_starts_with_window(b, p, x, 0, x.len() as int);
        assert(x.subrange(0, x.len() as int) =~= x);
    }
}

/// Parse an item header, in any argument form.
pub fn parse_item_head(bytes: &[u8], pos: usize) -> (r: Result<(u8, u64, usize), ()>)
    ensures
        r matches Ok((m, v, p)) ==> spec_item_head_at(bytes@, pos as int) == Some(
            (m, v, p as int),
        ) && pos < p <= bytes@.len(),
        r is Err ==> spec_item_head_at(bytes@, pos as int) is None,
{
    proof {
        lemma_be_bytes_properties();
        lemma_u64_be_from_to();
    }
    let n = bytes.len();
    if pos >= n {
        return Err(());
    }
    let ib = bytes[pos];
    let major = ib / 32;
    let addl = ib % 32;
    if addl < 24 {
        Ok((major, addl as u64, pos + 1))
    } else if addl == 24 {
        if n - pos < 2 {
            return Err(());
        }
        Ok((major, bytes[pos + 1] as u64, pos + 2))
    } else if addl == 25 {
        if n - pos < 3 {
            return Err(());
        }
        let v = (bytes[pos + 1] as u64) * 256 + (bytes[pos + 2] as u64);
        Ok((major, v, pos + 3))
    } else if addl == 26 {
        if n - pos < 5 {
            return Err(());
        }
        let v = (bytes[pos + 1] as u64) * 0x1000000 + (bytes[pos + 2] as u64) * 0x10000 + (
        bytes[pos + 3] as u64) * 0x100 + (bytes[pos + 4] as u64);
        Ok((major, v, pos + 5))
    } else if addl == 27 {
        if n - pos < 9 {
            return Err(());
        }
        let v = u64_from_be_bytes(&bytes[pos + 1..pos + 9]);
        proof {
            assert(spec_u64_from_be_bytes(bytes@.subrange(pos + 1, pos + 9)) == v);
        }
        Ok((major, v, pos + 9))
    } else {
        Err(())
    }
}

/// Parse a text item.
pub fn parse_text_item(bytes: &[u8], pos: usize) -> (r: Result<(String, usize), ()>)
    ensures
        r matches Ok((s, p)) ==> spec_dec_text_at(bytes@, pos as int) == Some((s@, p as int))
            && pos < p <= bytes@.len(),
        r is Err ==> spec_dec_text_at(bytes@, pos as int) is None,
{
    let n = bytes.len();
    match parse_item_head(bytes, pos) {
        Ok((m, v, p)) => {
            if m != 3 {
                return Err(());
            }
            if v > (n - p) as u64 {
                return Err(());
            }
            let len = v as usize;
            let mut raw: Vec<u8> = Vec::new();
            let mut i: usize = 0;
            while i < len
                invariant
                    p + len <= bytes@.len(),
                    i <= len,
                    raw@ == bytes@.subrange(p as int, p + i),
                decreases len - i,
            {
                raw.push(bytes[p + i]);
                i += 1;
                proof {
                    assert(bytes@.subrange(p as int, p + i) =~= bytes@.subrange(
                        p as int,
                        p + i - 1,
                    ).push(bytes@[p + i - 1]));
                }
            }
            match string_from_utf8(raw) {
                Some(s) => Ok((s, p + len)),
                None => Err(()),
            }
        },
        Err(()) => Err(()),
    }
}

/// Parse a byte-string item.
pub fn parse_bytes_item(bytes: &[u8], pos: usize) -> (r: Result<(Vec<u8>, usize), ()>)
    ensures
        r matches Ok((v, p)) ==> spec_dec_bytes_at(bytes@, pos as int) == Some((v@, p as int))
            && pos < p <= bytes@.len(),
        r is Err ==> spec_dec_bytes_at(bytes@, pos as int) is None,
{
    let n = bytes.len();
    match parse_item_head(bytes, pos) {
        Ok((m, v, p)) => {
            if m != 2 {
                return Err(());
            }
            if v > (n - p) as u64 {
                return Err(());
            }
            let len = v as usize;
            let mut raw: Vec<u8> = Vec::new();
            let mut i: usize = 0;
            while i < len
                invariant
                    p + len <= bytes@.len(),
                    i <= len,
                    raw@ == bytes@.subrange(p as int, p + i),
                decreases len - i,
            {
                raw.push(bytes[p + i]);
                i += 1;
                proof {
                    assert(bytes@.subrange(p as int, p + i) =~= bytes@.subrange(
                        p as int,
                        p + i - 1,
                    ).push(bytes@[p + i - 1]));
                }
            }
            Ok((raw, p + len))
        },
        Err(()) => Err(()),
    }
}

/// Parse a JSON value item.
pub fn parse_json_item(bytes: &[u8], pos: usize) -> (r: Result<(JsonValue, usize), ()>)
    ensures
        r matches Ok((v, p)) ==> spec_dec_json_at(bytes@, pos as int) == Some((v@, p as int))
            && pos < p <= bytes@.len(),
        r is Err ==> spec_dec_json_at(bytes@, pos as int) is None,
    decreases bytes@.len() - pos,
{
    broadcast use crate::json::lemma_view_unfold, crate::json::lemma_views_of_props,
        crate::json::lemma_member_views_of_props;

    let n = bytes.len();
    if pos >= n {
        return Err(());
    }
    let ib = bytes[pos];
    if ib == 0xf6 {
        return Ok((JsonValue::Null, pos + 1));
    }
    if ib == 0xf4 {
        return Ok((JsonValue::Bool(false), pos + 1));
    }
    if ib == 0xf5 {
        return Ok((JsonValue::Bool(true), pos + 1));
    }
    match parse_item_head(bytes, pos) {
        Ok((m, len, p)) => {
            if m == 3 {
                match parse_text_item(bytes, pos) {
                    Ok((s, p2)) => Ok((JsonValue::Str(s), p2)),
                    Err(()) => Err(()),
                }
            } else if m == 6 && len == 999 {
                match parse_text_item(bytes, p) {
                    Ok((s, p2)) => Ok((JsonValue::Num(s), p2)),
                    Err(()) => Err(()),
                }
            } else if m == 4 {
                let ghost target = spec_dec_json_seq_at(bytes@, p as int, len);
                let mut items: Vec<JsonValue> = Vec::new();
                let mut cur = p;
                let mut rem = len;
                proof {
                    assert(spec_dec_json_seq_at(bytes@, cur as int, rem) == target);
                }
                while rem > 0
                    invariant
                        pos < cur <= bytes@.len(),
                        rem <= len,
                        (match spec_dec_json_seq_at(bytes@, cur as int, rem) {
                            Some((rest, pend)) => target == Some::<(Seq<JsonView>, int)>(
                                (crate::json::views_of(items@) + rest, pend),
                            ),
                            None => target is None,
                        }),
                    decreases rem,
                {
                    let ghost pre_items = items@;
                    match parse_json_item(bytes, cur) {
                        Ok((v, p2)) => {
                            items.push(v);
                            proof {
                                assert(crate::json::views_of(items@) =~= crate::json::views_of(
                                    pre_items,
                                ).push(v@));
                                assert(spec_dec_json_seq_at(bytes@, cur as int, rem) == (
                                match spec_dec_json_seq_at(bytes@, p2 as int, (rem - 1) as u64) {
                                    Some((rest, pend)) => Some::<(Seq<JsonView>, int)>(
                                        (seq![v@] + rest, pend),
                                    ),
                                    None => None::<(Seq<JsonView>, int)>,
                                }));
                                assert(match spec_dec_json_seq_at(
                                    bytes@,
                                    p2 as int,
                                    (rem - 1) as u64,
                                ) {
                                    Some((rest, pend)) => crate::json::views_of(pre_items) + (
                                    seq![v@] + rest) =~= crate::json::views_of(items@) + rest,
                                    None => true,
                                });
                            }
                            cur = p2;
                        },
                        Err(()) => {
                            return Err(());
                        },
                    }
                    rem = rem - 1;
                }
                proof {
                    assert(spec_dec_json_seq_at(bytes@, cur as int, 0) == Some::<
                        (Seq<JsonView>, int),
                    >((Seq::empty(), cur as int)));
                    assert(crate::json::views_of(items@) + Seq::<JsonView>::empty()
                        =~= crate::json::views_of(items@));
                }
                let r = JsonValue::Arr(items);
                proof {
                    assert(r@ == JsonView::Arr(crate::json::views_of(r->Arr_0@)));
                }
                Ok((r, cur))
            } else if m == 5 {
                let ghost target = spec_dec_json_members_at(bytes@, p as int, len);
                let mut members: Vec<(String, JsonValue)> = Vec::new();
                let mut cur = p;
                let mut rem = len;
                while rem > 0
                    invariant
                        pos < cur <= bytes@.len(),
                        rem <= len,
                        (match spec_dec_json_members_at(bytes@, cur as int, rem) {
                            Some((rest, pend)) => target == Some::<
                                (Seq<(Seq<char>, JsonView)>, int),
                            >((crate::json::member_views_of(members@) + rest, pend)),
                            None => target is None,
                        }),
                    decreases rem,
                {
                    let ghost pre_members = members@;
                    match parse_text_item(bytes, cur) {
                        Ok((k, p1)) => {
                            match parse_json_item(bytes, p1) {
                                Ok((v, p2)) => {
                                    members.push((k, v));
                                    proof {
                                        assert(crate::json::member_views_of(members@)
                                            =~= crate::json::member_views_of(pre_members).push(
                                            (k@, v@),
                                        ));
                                        assert(match spec_dec_json_members_at(
                                            bytes@,
                                            p2 as int,
                                            (rem - 1) as u64,
                                        ) {
                                            Some((rest, pend)) => crate::json::member_views_of(
                                                pre_members,
                                            ) + (seq![(k@, v@)] + rest)
                                                =~= crate::json::member_views_of(members@) + rest,
                                            None => true,
                                        });
                                    }
                                    cur = p2;
                                },
                                Err(()) => {
                                    return Err(());
                                },
                            }
                        },
                        Err(()) => {
                            return Err(());
                        },
                    }
                    rem = rem - 1;
                }
                proof {
                    assert(crate::json::member_views_of(members@) + Seq::<
                        (Seq<char>, JsonView),
                    >::empty() =~= crate::json::member_views_of(members@));
                }
                let r = JsonValue::Obj(members);
                Ok((r, cur))
            } else {
                Err(())
            }
        },
        Err(()) => Err(()),
    }
}

} // verus!
