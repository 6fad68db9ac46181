//! The bus topic scheme for replication: deterministic topic naming per
//! tenant and document shard, wildcards, and parsing.
//!
//! Topics take the shape `{prefix}/v1/{tenant}/{doc_hash}/{kind}` with
//! `kind` one of `hello`, `delta`, `ae/request`, `ae/response`.

use vstd::prelude::*;
use vstd::string::{StrSliceExecFns, StringExecFns};
use crate::path::{first_idx, lemma_first_idx_absent, lemma_first_idx_concat, lemma_first_idx_props};
use crate::strutil::{str_eq, str_to_chars};

verus! {

/// The kinds of protocol message, as named on the bus.
#[derive(Debug, Clone, Copy, PartialEq, Eq, Structural)]
pub enum MessageType {
    /// Agent hello
    Hello,
    /// Delta replication
    Delta,
    /// Anti-entropy request
    AntiEntropyRequest,
    /// Anti-entropy response
    AntiEntropyResponse,
}

/// The mathematical form of a topic scheme.
#[verifier::ext_equal]
pub struct TopicSchemeView {
    pub tenant: Seq<char>,
    pub prefix: Seq<char>,
}

/// The topic scheme for one tenant.
#[derive(Debug, PartialEq, Eq)]
pub struct TopicScheme {
    /// Tenant identifier
    pub tenant: String,
    /// Topic prefix
    pub prefix: String,
}

impl View for TopicScheme {
    type V = TopicSchemeView;

    open spec fn view(&self) -> TopicSchemeView {
        TopicSchemeView { tenant: self.tenant@, prefix: self.prefix@ }
    }
}

impl Clone for TopicScheme {
    fn clone(&self) -> (r: Self)
        ensures
            r@ == self@,
    {
        TopicScheme { tenant: self.tenant.clone(), prefix: self.prefix.clone() }
    }
}

/// The leading part shared by every topic of a tenant:
/// `{prefix}/v1/{tenant}/`.
pub open spec fn spec_topic_head(s: TopicSchemeView) -> Seq<char> {
    s.prefix + seq!['/', 'v', '1', '/'] + s.tenant + seq!['/']
}

/// The per-document base: `{prefix}/v1/{tenant}/{doc_hash}`.
pub open spec fn spec_topic_base(s: TopicSchemeView, doc_hash: Seq<char>) -> Seq<char> {
    spec_topic_head(s) + doc_hash
}

/// The trailing segment naming a message kind.
pub open spec fn spec_kind_suffix(k: MessageType) -> Seq<char> {
    match k {
        MessageType::Hello => seq!['h', 'e', 'l', 'l', 'o'],
        MessageType::Delta => seq!['d', 'e', 'l', 't', 'a'],
        MessageType::AntiEntropyRequest => seq!['a', 'e', '/', 'r', 'e', 'q', 'u', 'e', 's', 't'],
        MessageType::AntiEntropyResponse => seq![
            'a',
            'e',
            '/',
            'r',
            'e',
            's',
            'p',
            'o',
            'n',
            's',
            'e',
        ],
    }
}

/// The full topic of one message kind for one document.
pub open spec fn spec_topic_for(s: TopicSchemeView, doc_hash: Seq<char>, k: MessageType) -> Seq<
    char,
> {
    spec_topic_base(s, doc_hash) + seq!['/'] + spec_kind_suffix(k)
}

/// What parsing a topic yields: the document hash and the message kind,
/// exactly when the topic has the scheme's head, a hash segment, and one
/// known kind suffix with nothing after it.
pub open spec fn spec_parse_topic(s: TopicSchemeView, topic: Seq<char>) -> Option<
    (Seq<char>, MessageType),
> {
    let head = spec_topic_head(s);
    if topic.len() < head.len() || topic.take(head.len() as int) != head {
        None
    } else {
        let rem = topic.skip(head.len() as int);
        let d = first_idx(rem, '/');
        if d < 0 {
            None
        } else {
            let doc_hash = rem.take(d);
            let suffix = rem.subrange(d + 1, rem.len() as int);
            if suffix == spec_kind_suffix(MessageType::Hello) {
                Some((doc_hash, MessageType::Hello))
            } else if suffix == spec_kind_suffix(MessageType::Delta) {
                Some((doc_hash, MessageType::Delta))
            } else if suffix == spec_kind_suffix(MessageType::AntiEntropyRequest) {
                Some((doc_hash, MessageType::AntiEntropyRequest))
            } else if suffix == spec_kind_suffix(MessageType::AntiEntropyResponse) {
                Some((doc_hash, MessageType::AntiEntropyResponse))
            } else {
                None
            }
        }
    }
}

impl TopicScheme {
    /// A scheme for the given tenant under the default prefix.
    pub fn new(tenant: &str) -> (r: TopicScheme)
        ensures
            r@.tenant == tenant@,
            r@.prefix == "aas-deltasync"@,
    {
        TopicScheme { tenant: tenant.to_owned(), prefix: String::from_str("aas-deltasync") }
    }

    /// The per-document base topic.
    fn base(&self, doc_hash: &str) -> (r: String)
        ensures
            r@ == spec_topic_base(self@, doc_hash@),
    {
        proof {
            reveal_strlit("/v1/");
            reveal_strlit("/");
        }
        let mut r = self.prefix.clone();
        r.append("/v1/");
        r.append(self.tenant.as_str());
        r.append("/");
        r.append(doc_hash);
        proof {
            assert(r@ =~= spec_topic_base(self@, doc_hash@));
        }
        r
    }

    /// The hello topic for a document.
    pub fn hello(&self, doc_hash: &str) -> (r: String)
        ensures
            r@ == spec_topic_for(self@, doc_hash@, MessageType::Hello),
    {
        proof {
            reveal_strlit("/hello");
        }
        let mut r = self.base(doc_hash);
        r.append("/hello");
        proof {
            assert(r@ =~= spec_topic_for(self@, doc_hash@, MessageType::Hello));
        }
        r
    }

    /// The delta topic for a document.
    pub fn delta(&self, doc_hash: &str) -> (r: String)
        ensures
            r@ == spec_topic_for(self@, doc_hash@, MessageType::Delta),
    {
        proof {
            reveal_strlit("/delta");
        }
        let mut r = self.base(doc_hash);
        r.append("/delta");
        proof {
            assert(r@ =~= spec_topic_for(self@, doc_hash@, MessageType::Delta));
        }
        r
    }

    /// The anti-entropy request topic for a document.
    pub fn ae_request(&self, doc_hash: &str) -> (r: String)
        ensures
            r@ == spec_topic_for(self@, doc_hash@, MessageType::AntiEntropyRequest),
    {
        proof {
            reveal_strlit("/ae/request");
        }
        let mut r = self.base(doc_hash);
        r.append("/ae/request");
        proof {
            assert(r@ =~= spec_topic_for(self@, doc_hash@, MessageType::AntiEntropyRequest));
        }
        r
    }

    /// The anti-entropy response topic for a document.
    pub fn ae_response(&self, doc_hash: &str) -> (r: String)
        ensures
            r@ == spec_topic_for(self@, doc_hash@, MessageType::AntiEntropyResponse),
    {
        proof {
            reveal_strlit("/ae/response");
        }
        let mut r = self.base(doc_hash);
        r.append("/ae/response");
        proof {
            assert(r@ =~= spec_topic_for(self@, doc_hash@, MessageType::AntiEntropyResponse));
        }
        r
    }

    /// The wildcard covering every message of one document.
    pub fn doc_wildcard(&self, doc_hash: &str) -> (r: String)
        ensures
            r@ == spec_topic_base(self@, doc_hash@) + seq!['/', '#'],
    {
        proof {
            reveal_strlit("/#");
        }
        let mut r = self.base(doc_hash);
        r.append("/#");
        proof {
            assert(r@ =~= spec_topic_base(self@, doc_hash@) + seq!['/', '#']);
        }
        r
    }

    /// The wildcard covering every message of the tenant.
    pub fn tenant_wildcard(&self) -> (r: String)
        ensures
            r@ == spec_topic_head(self@) + seq!['#'],
    {
        proof {
            reveal_strlit("/v1/");
            reveal_strlit("/#");
        }
        let mut r = self.prefix.clone();
        r.append("/v1/");
        r.append(self.tenant.as_str());
        r.append("/#");
        proof {
            assert(r@ =~= spec_topic_head(self@) + seq!['#']);
        }
        r
    }

    /// Parse a topic: the document hash and message kind, exactly when the
    /// topic belongs to this scheme.
    pub fn parse(&self, topic: &str) -> (r: Option<(String, MessageType)>)
        ensures
            r matches Some(p) ==> spec_parse_topic(self@, topic@) matches Some(q) && p.0@ == q.0
                && p.1 == q.1,
            r is None ==> spec_parse_topic(self@, topic@) is None,
    {
        let head = {
            proof {
                reveal_strlit("/v1/");
                reveal_strlit("/");
            }
            let mut h = self.prefix.clone();
            h.append("/v1/");
            h.append(self.tenant.as_str());
            h.append("/");
            proof {
                assert(h@ =~= spec_topic_head(self@));
            }
            h
        };
        let tc = str_to_chars(topic);
        let hc = str_to_chars(head.as_str());
        let hl = hc.len();
        if tc.len() < hl {
            return None;
        }
        let mut i: usize = 0;
        while i < hl
            invariant
                i <= hl,
                hl == hc@.len() <= tc@.len(),
                forall|k: int| 0 <= k < i ==> tc@[k] == hc@[k],
            decreases hl - i,
        {
            if tc[i] != hc[i] {
                proof {
                    assert(topic@.take(hc@.len() as int)[i as int] != hc@[i as int]);
                }
                return None;
            }
            i += 1;
        }
        proof {
            assert(topic@.take(hc@.len() as int) =~= hc@);
        }
        let ghost rem = topic@.skip(hc@.len() as int);
        let n = tc.len();
        let mut d: usize = hl;
        while d < n && tc[d] != '/'
            invariant
                hl <= d <= n,
                n == tc@.len(),
                forall|k: int| hl <= k < d ==> tc@[k] != '/',
            decreases n - d,
        {
            d += 1;
        }
        if d == n {
            proof {
                assert forall|k: int| 0 <= k < rem.len() implies rem[k] != '/' by {
                    assert(rem[k] == tc@[hl + k]);
                }
                lemma_first_idx_absent(rem, '/');
            }
            return None;
        }
        proof {
            assert(rem =~= rem.take(d - hl) + seq!['/'] + rem.subrange(
                d - hl + 1,
                rem.len() as int,
            ));
            assert forall|k: int| 0 <= k < d - hl implies #[trigger] rem.take(d - hl)[k]
                != '/' by {
                assert(rem.take(d - hl)[k] == tc@[hl + k]);
            }
            lemma_first_idx_concat(rem.take(d - hl), '/', rem.subrange(d - hl + 1, rem.len() as int));
            assert(first_idx(rem, '/') == d - hl);
        }
        let doc_hash = topic.substring_char(hl, d).to_owned();
        let suffix = topic.substring_char(d + 1, n);
        proof {
            reveal_strlit("hello");
            reveal_strlit("delta");
            reveal_strlit("ae/request");
            reveal_strlit("ae/response");
            assert(doc_hash@ =~= rem.take(d - hl));
            assert(suffix@ =~= rem.subrange(d - hl + 1, rem.len() as int));
            assert(spec_kind_suffix(MessageType::Hello) =~= "hello"@);
            assert(spec_kind_suffix(MessageType::Delta) =~= "delta"@);
            assert(spec_kind_suffix(MessageType::AntiEntropyRequest) =~= "ae/request"@);
            assert(spec_kind_suffix(MessageType::AntiEntropyResponse) =~= "ae/response"@);
        }
        if str_eq(suffix, "hello") {
            Some((doc_hash, MessageType::Hello))
        } else if str_eq(suffix, "delta") {
            Some((doc_hash, MessageType::Delta))
        } else if str_eq(suffix, "ae/request") {
            Some((doc_hash, MessageType::AntiEntropyRequest))
        } else if str_eq(suffix, "ae/response") {
            Some((doc_hash, MessageType::AntiEntropyResponse))
        } else {
            None
        }
    }
}

impl Default for TopicScheme {
    /// The scheme of the default tenant under the default prefix.
    fn default() -> (r: TopicScheme)
        ensures
            r@.tenant == "default"@,
            r@.prefix == "aas-deltasync"@,
    {
        TopicScheme {
            tenant: String::from_str("default"),
            prefix: String::from_str("aas-deltasync"),
        }
    }
}

/// The topic round trip: a topic built for a slash-free document hash
/// parses back to that hash and kind, under any scheme.
pub proof fn lemma_topic_roundtrip(s: TopicSchemeView, doc_hash: Seq<char>, k: MessageType)
    requires
        forall|i: int| 0 <= i < doc_hash.len() ==> doc_hash[i] != '/',
    ensures
        spec_parse_topic(s, spec_topic_for(s, doc_hash, k)) == Some((doc_hash, k)),
{
    let head = spec_topic_head(s);
    let topic = spec_topic_for(s, doc_hash, k);
    assert(topic =~= head + (doc_hash + seq!['/'] + spec_kind_suffix(k)));
    assert(topic.take(head.len() as int) =~= head);
    let rem = topic.skip(head.len() as int);
    assert(rem =~= doc_hash + seq!['/'] + spec_kind_suffix(k));
    lemma_first_idx_concat(doc_hash, '/', spec_kind_suffix(k));
    let d = doc_hash.len() as int;
    assert(first_idx(rem, '/') == d);
    assert(rem.take(d) =~= doc_hash);
    assert(rem.subrange(d + 1, rem.len() as int) =~= spec_kind_suffix(k));
    assert(spec_kind_suffix(MessageType::Hello) != spec_kind_suffix(MessageType::Delta));
    assert(spec_kind_suffix(MessageType::Hello) != spec_kind_suffix(
        MessageType::AntiEntropyRequest,
    ));
    assert(spec_kind_suffix(MessageType::Hello) != spec_kind_suffix(
        MessageType::AntiEntropyResponse,
    ));
    assert(spec_kind_suffix(MessageType::Delta) != spec_kind_suffix(
        MessageType::AntiEntropyRequest,
    ));
    assert(spec_kind_suffix(MessageType::Delta) != spec_kind_suffix(
        MessageType::AntiEntropyResponse,
    ));
    assert(spec_kind_suffix(MessageType::AntiEntropyRequest) != spec_kind_suffix(
        MessageType::AntiEntropyResponse,
    ));
}

} // verus!
