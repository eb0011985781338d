//! Transport categories, and the rule that assigns one to every entry.
//!
//! The rule reads only the query of an entry, the part from its first `?` on.
//! The first `type=` in the query decides if there is one; `security=tls` is
//! consulted only when there is none.

use crate::text::{
    begins_with, chars_of, contains_text, find_char, find_text, first_char_from,
    first_occurrence_from, lemma_first_char_from, lemma_first_occurrence_contains,
    lemma_first_occurrence_from, matches_at, occurs_at,
};
use vstd::prelude::*;
use vstd::slice::slice_subrange;

verus! {

/// The transport of a connection string.
#[derive(Debug, Clone, Copy, Hash, PartialEq, Eq, Structural)]
pub enum TransportType {
    WebSocket,
    Grpc,
    Tcp,
    Tls,
    XHttp,
}

/// The key whose value names the transport: `type=`.
pub open spec fn type_key() -> Seq<char> {
    seq!['t', 'y', 'p', 'e', '=']
}

/// What marks an entry as `Tls` when it has no `type=` key: `security=tls`.
pub open spec fn security_tls() -> Seq<char> {
    seq!['s', 'e', 'c', 'u', 'r', 'i', 't', 'y', '=', 't', 'l', 's']
}

/// The value prefix of `WebSocket`: `ws`.
pub open spec fn ws_value() -> Seq<char> {
    seq!['w', 's']
}

/// The value prefix of `Grpc`: `grpc`.
pub open spec fn grpc_value() -> Seq<char> {
    seq!['g', 'r', 'p', 'c']
}

/// A value prefix of `XHttp`: `xhttp`.
pub open spec fn xhttp_value() -> Seq<char> {
    seq!['x', 'h', 't', 't', 'p']
}

/// The other value prefix of `XHttp`: `httpupgrade`.
pub open spec fn httpupgrade_value() -> Seq<char> {
    seq!['h', 't', 't', 'p', 'u', 'p', 'g', 'r', 'a', 'd', 'e']
}

/// The query of an entry: what follows its first `?`, the `?` included.
pub open spec fn query_of(entry: Seq<char>) -> Option<Seq<char>> {
    match first_char_from(entry, '?', 0) {
        Some(at) => Some(entry.skip(at)),
        None => None,
    }
}

/// The value that starts at `start` and runs to the next `&`, or to the end.
pub open spec fn value_at(query: Seq<char>, start: int) -> Seq<char> {
    match first_char_from(query, '&', start) {
        Some(end) => query.subrange(start, end),
        None => query.skip(start),
    }
}

/// The category named by the value of a `type=` key: the first prefix that
/// fits, in this order, and `Tcp` when none does.
pub open spec fn transport_of_value(value: Seq<char>) -> TransportType {
    if ws_value().is_prefix_of(value) {
        TransportType::WebSocket
    } else if grpc_value().is_prefix_of(value) {
        TransportType::Grpc
    } else if xhttp_value().is_prefix_of(value) || httpupgrade_value().is_prefix_of(value) {
        TransportType::XHttp
    } else {
        TransportType::Tcp
    }
}

/// The category of a query.
pub open spec fn transport_of_query(query: Seq<char>) -> TransportType {
    match first_occurrence_from(query, type_key(), 0) {
        Some(at) => transport_of_value(value_at(query, at + type_key().len())),
        None => if contains_text(query, security_tls()) {
            TransportType::Tls
        } else {
            TransportType::Tcp
        },
    }
}

/// The category of an entry.
pub open spec fn transport_of(entry: Seq<char>) -> TransportType {
    match query_of(entry) {
        Some(query) => transport_of_query(query),
        None => TransportType::Tcp,
    }
}

impl TransportType {
    /// The short name of the category, as a sequence of characters.
    pub open spec fn name(self) -> Seq<char> {
        match self {
            TransportType::WebSocket => seq!['w', 's'],
            TransportType::Grpc => seq!['g', 'r', 'p', 'c'],
            TransportType::Tcp => seq!['t', 'c', 'p'],
            TransportType::Tls => seq!['t', 'l', 's'],
            TransportType::XHttp => seq!['x', 'h', 't', 't', 'p'],
        }
    }

    /// The short name of the category.
    pub fn as_str(&self) -> (name: &'static str)
        ensures
            name@ == self.name(),
    {
        proof {
            reveal_strlit("ws");
            reveal_strlit("grpc");
            reveal_strlit("tcp");
            reveal_strlit("tls");
            reveal_strlit("xhttp");
        }
        let name = match self {
            TransportType::WebSocket => "ws",
            TransportType::Grpc => "grpc",
            TransportType::Tcp => "tcp",
            TransportType::Tls => "tls",
            TransportType::XHttp => "xhttp",
        };
        assert(name@ =~= self.name());
        name
    }

    /// The category with the given short name, if there is one.
    pub fn from_name(name: &str) -> (found: Option<TransportType>)
        ensures
            match found {
                Some(t) => t.name() == name@,
                None => forall|t: TransportType| t.name() != name@,
            },
    {
        let chars = chars_of(name);
        let all = [
            TransportType::WebSocket,
            TransportType::Grpc,
            TransportType::Tcp,
            TransportType::Tls,
            TransportType::XHttp,
        ];
        let mut i: usize = 0;
        while i < 5
            invariant
                i <= 5,
                chars@ == name@,
                all@ == seq![
                    TransportType::WebSocket,
                    TransportType::Grpc,
                    TransportType::Tcp,
                    TransportType::Tls,
                    TransportType::XHttp,
                ],
                forall|j: int| 0 <= j < i ==> all@[j].name() != name@,
            decreases 5 - i,
        {
            let t = all[i];
            let short = chars_of(t.as_str());
            if short.len() == chars.len() && matches_at(chars.as_slice(), short.as_slice(), 0) {
                assert(chars@.subrange(0, chars@.len() as int) =~= chars@);
                return Some(t);
            }
            assert(t.name() != name@) by {
                if t.name() == name@ {
                    assert(chars@.subrange(0, chars@.len() as int) =~= chars@);
                }
            }
            i += 1;
        }
        assert forall|t: TransportType| t.name() != name@ by {
            match t {
                TransportType::WebSocket => assert(all@[0] == t),
                TransportType::Grpc => assert(all@[1] == t),
                TransportType::Tcp => assert(all@[2] == t),
                TransportType::Tls => assert(all@[3] == t),
                TransportType::XHttp => assert(all@[4] == t),
            }
        }
        None
    }
}

/// The category named by the value of a `type=` key.
pub fn classify_value(value: &[char]) -> (t: TransportType)
    ensures
        t == transport_of_value(value@),
{
    let ws = ['w', 's'];
    let grpc = ['g', 'r', 'p', 'c'];
    let xhttp = ['x', 'h', 't', 't', 'p'];
    let httpupgrade = ['h', 't', 't', 'p', 'u', 'p', 'g', 'r', 'a', 'd', 'e'];
    assert(ws@ =~= ws_value());
    assert(grpc@ =~= grpc_value());
    assert(xhttp@ =~= xhttp_value());
    assert(httpupgrade@ =~= httpupgrade_value());
    if begins_with(value, ws.as_slice()) {
        TransportType::WebSocket
    } else if begins_with(value, grpc.as_slice()) {
        TransportType::Grpc
    } else if begins_with(value, xhttp.as_slice()) || begins_with(value, httpupgrade.as_slice()) {
        TransportType::XHttp
    } else {
        TransportType::Tcp
    }
}

/// The category of a query, the text of an entry from its first `?` on.
pub fn classify_query(query: &[char]) -> (t: TransportType)
    ensures
        t == transport_of_query(query@),
{
    let key = ['t', 'y', 'p', 'e', '='];
    let tls = ['s', 'e', 'c', 'u', 'r', 'i', 't', 'y', '=', 't', 'l', 's'];
    assert(key@ =~= type_key());
    assert(tls@ =~= security_tls());
    let query_len = query.len();
    match find_text(query, key.as_slice(), 0) {
        Some(at) => {
            proof {
                lemma_first_occurrence_from(query@, type_key(), 0);
                assert(at + type_key().len() <= query.len());
            }
            let start = at + 5;
            let end = match find_char(query, '&', start) {
                Some(end) => {
                    proof {
                        lemma_first_char_from(query@, '&', start as int);
                    }
                    end
                },
                None => query_len,
            };
            let value = slice_subrange(query, start, end);
            classify_value(value)
        },
        None => {
            proof {
                lemma_first_occurrence_contains(query@, security_tls());
            }
            if find_text(query, tls.as_slice(), 0).is_some() {
                TransportType::Tls
            } else {
                TransportType::Tcp
            }
        },
    }
}

/// The category of an entry. Every entry has exactly one; `Tcp` is the
/// category of an entry that names no other.
pub fn extract_transport(config: &str) -> (t: TransportType)
    ensures
        t == transport_of(config@),
{
    let chars = chars_of(config);
    let entry = chars.as_slice();
    match find_char(entry, '?', 0) {
        Some(at) => {
            proof {
                lemma_first_char_from(entry@, '?', 0);
            }
            classify_query(slice_subrange(entry, at, entry.len()))
        },
        None => TransportType::Tcp,
    }
}

/// An entry without a `?` has no query, and its category is `Tcp`.
pub proof fn lemma_no_query_is_tcp(entry: Seq<char>)
    requires
        !entry.contains('?'),
    ensures
        transport_of(entry) == TransportType::Tcp,
{
    lemma_first_char_from(entry, '?', 0);
}

/// A `type=` key in the query takes precedence: once the query holds one, the
/// category is never `Tls`, whatever else the query holds.
pub proof fn lemma_type_key_precedes_tls(entry: Seq<char>)
    requires
        query_of(entry) is Some,
        contains_text(query_of(entry).unwrap(), type_key()),
    ensures
        transport_of(entry) != TransportType::Tls,
{
    lemma_first_occurrence_contains(query_of(entry).unwrap(), type_key());
}

/// An entry whose first `type=` key has a value that begins with `grpc` is
/// `Grpc`, also when its query holds `security=tls`.
pub proof fn lemma_grpc_precedes_tls(entry: Seq<char>, at: int)
    requires
        query_of(entry) is Some,
        occurs_at(query_of(entry).unwrap(), type_key() + grpc_value(), at),
        forall|j: int| 0 <= j < at ==> !occurs_at(query_of(entry).unwrap(), type_key(), j),
        contains_text(query_of(entry).unwrap(), security_tls()),
    ensures
        transport_of(entry) == TransportType::Grpc,
{
    let query = query_of(entry).unwrap();
    let both = type_key() + grpc_value();
    assert(query.subrange(at, at + 5) =~= type_key()) by {
        assert(query.subrange(at, at + 9) == both);
        assert forall|k: int| 0 <= k < 5 implies query.subrange(at, at + 5)[k] == type_key()[k] by {
            assert(query.subrange(at, at + 9)[k] == both[k]);
        }
    }
    assert(occurs_at(query, type_key(), at));
    lemma_first_occurrence_from(query, type_key(), 0);
    assert(first_occurrence_from(query, type_key(), 0) == Some(at));
    lemma_first_char_from(query, '&', at + 5);
    let value = value_at(query, at + 5);
    assert forall|k: int| 0 <= k < 4 implies query[at + 5 + k] == grpc_value()[k] by {
        assert(query.subrange(at, at + 9)[5 + k] == both[5 + k]);
    }
    assert(value.len() >= 4 && value.subrange(0, 4) =~= grpc_value());
    assert(!ws_value().is_prefix_of(value)) by {
        assert(value[0] == 'g');
        if ws_value().is_prefix_of(value) {
            assert(value.subrange(0, 2)[0] == ws_value()[0]);
        }
    }
}

} // verus!
