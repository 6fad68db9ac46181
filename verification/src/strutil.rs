//! Small executable string helpers with character-sequence contracts.

use vstd::prelude::*;
use vstd::string::{StrSliceExecFns, StringExecFns};
use vstd::utf8::{decode_utf8, encode_utf8, encode_utf8_decode_utf8, valid_utf8};

verus! {

/// String equality, decided at the byte level.
pub fn str_eq(a: &str, b: &str) -> (r: bool)
    ensures
        r == (a@ == b@),
{
    let ab = a.as_bytes();
    let bb = b.as_bytes();
    if ab.len() != bb.len() {
        proof {
            assert(a@ != b@);
        }
        return false;
    }
    let n = ab.len();
    let mut i: usize = 0;
    while i < n
        invariant
            n == ab@.len() == bb@.len(),
            ab@ == encode_utf8(a@),
            bb@ == encode_utf8(b@),
            i <= n,
            forall|k: int| 0 <= k < i ==> ab@[k] == bb@[k],
        decreases n - i,
    {
        if ab[i] != bb[i] {
            proof {
                assert(encode_utf8(a@) != encode_utf8(b@));
            }
            return false;
        }
        i += 1;
    }
    proof {
        assert(ab@ =~= bb@);
        encode_utf8_decode_utf8(a@);
        encode_utf8_decode_utf8(b@);
    }
    true
}

/// The characters of a string, as a vector.
pub fn str_to_chars(s: &str) -> (r: Vec<char>)
    ensures
        r@ == s@,
{
    let n = s.unicode_len();
    let mut r: Vec<char> = Vec::new();
    let mut i: usize = 0;
    while i < n
        invariant
            n == s@.len(),
            i <= n,
            r@ == s@.take(i as int),
        decreases n - i,
    {
        r.push(s.get_char(i));
        i += 1;
        proof {
            assert(s@.take(i as int) =~= s@.take(i - 1).push(s@[i - 1]));
        }
    }
    proof {
        assert(s@.take(n as int) =~= s@);
    }
    r
}

/// Relies on String::from_utf8: it succeeds exactly on valid UTF-8 input and
/// returns the string those bytes encode.
#[verifier::external_body]
pub fn string_from_utf8(bytes: Vec<u8>) -> (r: Option<String>)
    ensures
        r matches Some(s) ==> valid_utf8(bytes@) && s@ == decode_utf8(bytes@),
        r is Some <==> valid_utf8(bytes@),
{
    match String::from_utf8(bytes) {
        Ok(s) => Some(s),
        Err(_) => None,
    }
}


/// A sequence split at every occurrence of a character.
pub open spec fn spec_split_char(s: Seq<char>, c: char) -> Seq<Seq<char>>
    decreases s.len(),
{
    let i = crate::path::first_idx(s, c);
    if 0 <= i < s.len() {
        seq![s.take(i)] + spec_split_char(s.subrange(i + 1, s.len() as int), c)
    } else {
        seq![s]
    }
}

/// The parts joined back with the separator between them.
pub open spec fn spec_join_char(parts: Seq<Seq<char>>, c: char) -> Seq<char>
    decreases parts.len(),
{
    if parts.len() == 0 {
        Seq::empty()
    } else if parts.len() == 1 {
        parts[0]
    } else {
        parts[0] + seq![c] + spec_join_char(parts.drop_first(), c)
    }
}

/// Split a string at every occurrence of a character.
pub fn split_char(s: &str, c: char) -> (r: Vec<String>)
    ensures
        r@.map_values(|x: String| x@) == spec_split_char(s@, c),
        r@.len() > 0,
{
    let chars = str_to_chars(s);
    let r = split_char_from(s, &chars, 0, c);
    proof {
        assert(chars@.subrange(0, chars@.len() as int) =~= s@);
    }
    r
}

/// Split the tail of a string from a character position on.
fn split_char_from(s: &str, chars: &Vec<char>, start: usize, c: char) -> (r: Vec<String>)
    requires
        chars@ == s@,
        start <= chars@.len(),
    ensures
        r@.map_values(|x: String| x@) == spec_split_char(
            chars@.subrange(start as int, chars@.len() as int),
            c,
        ),
        r@.len() > 0,
    decreases chars@.len() - start,
{
    let n = chars.len();
    let ghost sub = chars@.subrange(start as int, n as int);
    let mut i: usize = start;
    while i < n && chars[i] != c
        invariant
            start <= i <= n,
            n == chars@.len(),
            forall|k: int| start <= k < i ==> chars@[k] != c,
        decreases n - i,
    {
        i += 1;
    }
    proof {
        if i < n {
            assert(sub =~= sub.take(i - start) + seq![c] + sub.subrange(
                i - start + 1,
                sub.len() as int,
            ));
            assert forall|k: int| 0 <= k < i - start implies #[trigger] sub.take(i - start)[k]
                != c by {
                assert(sub.take(i - start)[k] == chars@[start + k]);
            }
            crate::path::lemma_first_idx_concat(
                sub.take(i - start),
                c,
                sub.subrange(i - start + 1, sub.len() as int),
            );
            crate::path::lemma_first_idx_props(sub, c);
        } else {
            assert forall|k: int| 0 <= k < sub.len() implies sub[k] != c by {
                assert(sub[k] == chars@[start + k]);
            }
            crate::path::lemma_first_idx_absent(sub, c);
        }
    }
    let head = s.substring_char(start, i).to_owned();
    if i == n {
        let mut r: Vec<String> = Vec::new();
        r.push(head);
        proof {
            assert(sub.take(i - start) =~= sub);
            assert(head@ =~= sub);
            assert(spec_split_char(sub, c) =~= seq![sub]);
            assert(r@.map_values(|x: String| x@) =~= spec_split_char(sub, c));
        }
        r
    } else {
        let rest0 = split_char_from(s, chars, i + 1, c);
        let ghost rest0_snap = rest0@;
        let mut rest = rest0;
        rest.insert(0, head);
        proof {
            let tail = chars@.subrange(i + 1, n as int);
            assert(sub.subrange(i - start + 1, sub.len() as int) =~= tail);
            assert(sub.take(i - start) =~= chars@.subrange(start as int, i as int));
            assert(spec_split_char(sub, c) =~= seq![sub.take(i - start)] + spec_split_char(
                tail,
                c,
            ));
            assert(rest@ =~= seq![rest@[0]] + rest0_snap);
            let lhs = rest@.map_values(|x: String| x@);
            let rhs = spec_split_char(sub, c).map_values(|x: Seq<char>| x);
            assert(rest0_snap.map_values(|x: String| x@) == spec_split_char(tail, c));
            assert(rest0_snap.map_values(|x: String| x@).len() == rest0_snap.len());
            assert(rest0_snap.len() == spec_split_char(tail, c).len());
            assert(spec_split_char(sub, c).len() == 1 + spec_split_char(tail, c).len());
            assert(lhs.len() == 1 + rest0_snap.len());
            assert forall|k: int| 0 <= k < lhs.len() implies lhs[k] == spec_split_char(
                sub,
                c,
            )[k] by {
                if k == 0 {
                    assert(rest@[0]@ == sub.take(i - start));
                } else {
                    assert(rest@[k] == rest0_snap[k - 1]);
                    assert(spec_split_char(sub, c)[k] == spec_split_char(tail, c)[k - 1]);
                    assert(rest0_snap.map_values(|x: String| x@)[k - 1] == spec_split_char(
                        tail,
                        c,
                    )[k - 1]);
                }
            }
            assert(lhs =~= spec_split_char(sub, c));
        }
        rest
    }
}

/// Join string parts with a separator character; `sep` must be the
/// one-character string of `c`.
pub fn join_char(parts: &[String], from: usize, to: usize, sep: &str, ghost_c: Ghost<char>) -> (r:
    String)
    requires
        from <= to <= parts@.len(),
        sep@ == seq![ghost_c@],
    ensures
        r@ == spec_join_char(
            parts@.subrange(from as int, to as int).map_values(|x: String| x@),
            ghost_c@,
        ),
{
    let mut r = String::new();
    let mut i: usize = from;
    proof {
        assert(parts@.subrange(from as int, from as int).map_values(|x: String| x@) =~= Seq::<
            Seq<char>,
        >::empty());
    }
    while i < to
        invariant
            from <= i <= to <= parts@.len(),
            sep@ == seq![ghost_c@],
            r@ == spec_join_char(
                parts@.subrange(from as int, i as int).map_values(|x: String| x@),
                ghost_c@,
            ),
        decreases to - i,
    {
        if i > from {
            r.append(sep);
        }
        r.append(parts[i].as_str());
        i += 1;
        proof {
            lemma_join_char_snoc(
                parts@.subrange(from as int, i - 1).map_values(|x: String| x@),
                parts@[i - 1]@,
                ghost_c@,
            );
            assert(parts@.subrange(from as int, i as int).map_values(|x: String| x@)
                =~= parts@.subrange(from as int, i - 1).map_values(|x: String| x@).push(
                parts@[i - 1]@,
            ));
        }
    }
    r
}

/// Joining one more part appends the separator and the part.
pub proof fn lemma_join_char_snoc(parts: Seq<Seq<char>>, x: Seq<char>, c: char)
    ensures
        parts.len() == 0 ==> spec_join_char(parts.push(x), c) == x,
        parts.len() > 0 ==> spec_join_char(parts.push(x), c) == spec_join_char(parts, c)
            + seq![c] + x,
    decreases parts.len(),
{
    reveal_with_fuel(spec_join_char, 3);
    if parts.len() == 0 {
        assert(parts.push(x)[0] == x);
    } else {
        assert(parts.push(x)[0] == parts[0]);
        assert(parts.push(x).drop_first() =~= parts.drop_first().push(x));
        lemma_join_char_snoc(parts.drop_first(), x, c);
        if parts.len() == 1 {
        } else {
            assert(spec_join_char(parts.push(x), c) =~= spec_join_char(parts, c) + seq![c] + x);
        }
    }
}


/// The crate's protocol version string as carried in hello messages.
pub fn version_string() -> (r: String)
    ensures
        r@ == "0.1.0"@,
{
    String::from_str("0.1.0")
}


/// The one-character string of a character.
pub fn char_to_string(c: char) -> (r: String)
    ensures
        r@ == seq![c],
{
    let mut v: Vec<char> = Vec::new();
    v.push(c);
    let bytes = chars_to_utf8(&v);
    proof {
        vstd::utf8::encode_utf8_valid_utf8(seq![c]);
        vstd::utf8::encode_utf8_decode_utf8(seq![c]);
    }
    match string_from_utf8(bytes) {
        Some(s) => s,
        None => {
            proof {
                assert(false);
            }
            String::new()
        },
    }
}

/// Relies on str and String construction from a char via std's encoding:
/// the returned bytes are the characters' UTF-8 encoding.
#[verifier::external_body]
fn chars_to_utf8(chars: &Vec<char>) -> (r: Vec<u8>)
    ensures
        r@ == encode_utf8(chars@),
{
    let mut out = Vec::new();
    for c in chars.iter() {
        let mut buf = [0u8; 4];
        out.extend_from_slice(c.encode_utf8(&mut buf).as_bytes());
    }
    out
}

} // verus!
