//! The index of entries by transport category.
//!
//! An index maps every category to the entries of that category, in the order
//! in which they were put in. It is a partition of what was put in: every
//! entry stands in the bucket of its own category and in no other.

use crate::transport::{extract_transport, transport_of, TransportType};
use vstd::multiset::Multiset;
use vstd::prelude::*;
use vstd::std_specs::iter::IteratorSpec;

verus! {

/// The entries of `entries` whose category is `t`, in their order.
pub open spec fn bucket_of(entries: Seq<Seq<char>>, t: TransportType) -> Seq<Seq<char>>
    decreases entries.len(),
{
    if entries.len() == 0 {
        seq![]
    } else if transport_of(entries.last()) == t {
        bucket_of(entries.drop_last(), t).push(entries.last())
    } else {
        bucket_of(entries.drop_last(), t)
    }
}

/// The index of `entries`: for every category its bucket.
pub open spec fn index_of(entries: Seq<Seq<char>>) -> Map<TransportType, Seq<Seq<char>>> {
    Map::total(|t: TransportType| bucket_of(entries, t))
}

/// Two indexes merged: bucket by bucket, the second appended to the first.
pub open spec fn merged(
    first: Map<TransportType, Seq<Seq<char>>>,
    second: Map<TransportType, Seq<Seq<char>>>,
) -> Map<TransportType, Seq<Seq<char>>> {
    Map::total(|t: TransportType| first[t] + second[t])
}

/// The five categories, in the order in which output is named.
pub fn all_transports() -> (all: [TransportType; 5])
    ensures
        all@ == seq![
            TransportType::WebSocket,
            TransportType::Grpc,
            TransportType::Tcp,
            TransportType::Tls,
            TransportType::XHttp,
        ],
        forall|t: TransportType| all@.contains(t),
{
    let all = [
        TransportType::WebSocket,
        TransportType::Grpc,
        TransportType::Tcp,
        TransportType::Tls,
        TransportType::XHttp,
    ];
    assert forall|t: TransportType| all@.contains(t) by {
        match t {
            TransportType::WebSocket => assert(all@[0] == t),
            TransportType::Grpc => assert(all@[1] == t),
            TransportType::Tcp => assert(all@[2] == t),
            TransportType::Tls => assert(all@[3] == t),
            TransportType::XHttp => assert(all@[4] == t),
        }
    }
    all
}

/// The entries of a run, by category.
pub struct CategoryIndex {
    web_socket: Vec<String>,
    grpc: Vec<String>,
    tcp: Vec<String>,
    tls: Vec<String>,
    xhttp: Vec<String>,
}

impl View for CategoryIndex {
    type V = Map<TransportType, Seq<Seq<char>>>;

    closed spec fn view(&self) -> Map<TransportType, Seq<Seq<char>>> {
        Map::total(
            |t: TransportType|
                match t {
                    TransportType::WebSocket => self.web_socket.deep_view(),
                    TransportType::Grpc => self.grpc.deep_view(),
                    TransportType::Tcp => self.tcp.deep_view(),
                    TransportType::Tls => self.tls.deep_view(),
                    TransportType::XHttp => self.xhttp.deep_view(),
                },
        )
    }
}

impl CategoryIndex {
    /// Every entry stands in the bucket of its own category.
    pub open spec fn wf(&self) -> bool {
        forall|t: TransportType, i: int|
            0 <= i < self@[t].len() ==> transport_of(#[trigger] self@[t][i]) == t
    }

    /// The index that holds nothing.
    pub fn new() -> (index: CategoryIndex)
        ensures
            index@ == index_of(Seq::empty()),
            index.wf(),
    {
        let index = CategoryIndex {
            web_socket: Vec::new(),
            grpc: Vec::new(),
            tcp: Vec::new(),
            tls: Vec::new(),
            xhttp: Vec::new(),
        };
        assert forall|t: TransportType| #[trigger] index@[t] == bucket_of(Seq::empty(), t) by {
            assert(index@[t] =~= Seq::empty());
        }
        assert(index@ =~= index_of(Seq::empty()));
        index
    }

    /// The entries of category `t`.
    pub fn get(&self, t: TransportType) -> (bucket: &Vec<String>)
        ensures
            bucket.deep_view() == self@[t],
    {
        match t {
            TransportType::WebSocket => &self.web_socket,
            TransportType::Grpc => &self.grpc,
            TransportType::Tcp => &self.tcp,
            TransportType::Tls => &self.tls,
            TransportType::XHttp => &self.xhttp,
        }
    }

    /// Puts `config` at the end of the bucket of its category.
    pub fn insert(&mut self, config: String)
        ensures
            final(self)@ == old(self)@.insert(
                transport_of(config@),
                old(self)@[transport_of(config@)].push(config@),
            ),
            old(self).wf() ==> final(self).wf(),
    {
        let t = extract_transport(config.as_str());
        let ghost text = config@;
        let ghost before = self@;
        match t {
            TransportType::WebSocket => {
                self.web_socket.push(config);
                assert(self.web_socket.deep_view() =~= before[t].push(text));
            },
            TransportType::Grpc => {
                self.grpc.push(config);
                assert(self.grpc.deep_view() =~= before[t].push(text));
            },
            TransportType::Tcp => {
                self.tcp.push(config);
                assert(self.tcp.deep_view() =~= before[t].push(text));
            },
            TransportType::Tls => {
                self.tls.push(config);
                assert(self.tls.deep_view() =~= before[t].push(text));
            },
            TransportType::XHttp => {
                self.xhttp.push(config);
                assert(self.xhttp.deep_view() =~= before[t].push(text));
            },
        }
        assert(self@ =~= before.insert(t, before[t].push(text)));
    }

    /// Appends every bucket of `other` to the bucket of the same category.
    pub fn merge(&mut self, other: CategoryIndex)
        ensures
            final(self)@ == merged(old(self)@, other@),
            old(self).wf() && other.wf() ==> final(self).wf(),
    {
        let ghost before = self@;
        let ghost after = other@;
        let mut other = other;
        self.web_socket.append(&mut other.web_socket);
        self.grpc.append(&mut other.grpc);
        self.tcp.append(&mut other.tcp);
        self.tls.append(&mut other.tls);
        self.xhttp.append(&mut other.xhttp);
        assert forall|t: TransportType| #[trigger] self@[t] == before[t] + after[t] by {
            assert(self@[t] =~= before[t] + after[t]);
        }
        assert(self@ =~= merged(before, after));
    }
}

/// The index of `configs`.
pub fn categorize(configs: Vec<String>) -> (index: CategoryIndex)
    ensures
        index@ == index_of(configs.deep_view()),
        index.wf(),
{
    let ghost all = configs.deep_view();
    let mut index = CategoryIndex::new();
    for config in it: configs
        invariant
            it.seq().len() == all.len(),
            forall|j: int| 0 <= j < all.len() ==> (#[trigger] it.seq()[j])@ == all[j],
            index@ == index_of(all.take(it.index() as int)),
            index.wf(),
    {
        proof {
            let k = it.index() as int;
            assert(all.take(k + 1).drop_last() =~= all.take(k));
            assert(all.take(k + 1).last() == config@);
        }
        index.insert(config);
        assert(index@ =~= index_of(all.take(it.index() + 1)));
    }
    proof {
        assert(all.take(all.len() as int) =~= all);
    }
    index
}

/// All the buckets of an index, taken together, each entry as often as it
/// occurs.
pub open spec fn all_buckets(index: Map<TransportType, Seq<Seq<char>>>) -> Multiset<Seq<char>> {
    index[TransportType::WebSocket].to_multiset().add(
        index[TransportType::Grpc].to_multiset(),
    ).add(index[TransportType::Tcp].to_multiset()).add(
        index[TransportType::Tls].to_multiset(),
    ).add(index[TransportType::XHttp].to_multiset())
}

/// A bucket holds entries of its own category only, and each of them comes
/// from `entries`.
pub proof fn lemma_bucket_members(entries: Seq<Seq<char>>, t: TransportType)
    ensures
        forall|i: int|
            0 <= i < bucket_of(entries, t).len() ==> {
                &&& transport_of(#[trigger] bucket_of(entries, t)[i]) == t
                &&& entries.contains(bucket_of(entries, t)[i])
            },
        forall|i: int|
            0 <= i < entries.len() && transport_of(entries[i]) == t ==> bucket_of(
                entries,
                t,
            ).contains(#[trigger] entries[i]),
        bucket_of(entries, t).len() <= entries.len(),
        entries.no_duplicates() ==> bucket_of(entries, t).no_duplicates(),
    decreases entries.len(),
{
    if entries.len() > 0 {
        let before = entries.drop_last();
        let last = entries.last();
        let bucket = bucket_of(entries, t);
        let earlier = bucket_of(before, t);
        lemma_bucket_members(before, t);
        assert forall|i: int| 0 <= i < bucket.len() implies transport_of(#[trigger] bucket[i]) == t
            && entries.contains(bucket[i]) by {
            if i < earlier.len() {
                assert(bucket[i] == earlier[i]);
                let j = choose|j: int| 0 <= j < before.len() && before[j] == earlier[i];
                assert(entries[j] == bucket[i]);
            } else {
                assert(entries[entries.len() - 1] == bucket[i]);
            }
        }
        assert forall|i: int|
            0 <= i < entries.len() && transport_of(entries[i]) == t implies bucket.contains(
            #[trigger] entries[i],
        ) by {
            if i < before.len() {
                assert(before[i] == entries[i]);
                let j = choose|j: int| 0 <= j < earlier.len() && earlier[j] == before[i];
                assert(bucket[j] == entries[i]);
            } else {
                assert(bucket[bucket.len() - 1] == entries[i]);
            }
        }
        if entries.no_duplicates() {
            assert(before.no_duplicates());
            if transport_of(last) == t {
                assert forall|i: int, j: int|
                    0 <= i < bucket.len() && 0 <= j < bucket.len() && i != j implies bucket[i]
                    != bucket[j] by {
                    if i == earlier.len() || j == earlier.len() {
                        let k = if i == earlier.len() {
                            j
                        } else {
                            i
                        };
                        assert(bucket[k] == earlier[k]);
                        let m = choose|m: int| 0 <= m < before.len() && before[m] == earlier[k];
                        assert(entries[m] != entries[entries.len() - 1]);
                    } else {
                        assert(bucket[i] == earlier[i] && bucket[j] == earlier[j]);
                    }
                }
            }
        }
    }
}

/// The buckets of an index are a partition of its entries: taken together
/// they hold exactly the entries, each as often as it occurs, and no text
/// stands in two buckets.
pub proof fn lemma_index_partitions(entries: Seq<Seq<char>>)
    ensures
        all_buckets(index_of(entries)) == entries.to_multiset(),
        forall|s: TransportType, t: TransportType, e: Seq<char>|
            bucket_of(entries, s).contains(e) && bucket_of(entries, t).contains(e) ==> s == t,
        forall|e: Seq<char>|
            entries.contains(e) ==> bucket_of(entries, transport_of(e)).contains(e),
    decreases entries.len(),
{
    broadcast use vstd::seq_lib::group_to_multiset_ensures;

    assert forall|s: TransportType, t: TransportType, e: Seq<char>|
        bucket_of(entries, s).contains(e) && bucket_of(entries, t).contains(e) implies s == t by {
        lemma_bucket_members(entries, s);
        lemma_bucket_members(entries, t);
    }
    assert forall|e: Seq<char>| entries.contains(e) implies bucket_of(
        entries,
        transport_of(e),
    ).contains(e) by {
        lemma_bucket_members(entries, transport_of(e));
    }
    if entries.len() == 0 {
        assert(all_buckets(index_of(entries)) =~= entries.to_multiset());
    } else {
        let before = entries.drop_last();
        let last = entries.last();
        lemma_index_partitions(before);
        assert(before.push(last) =~= entries);
        assert(all_buckets(index_of(entries)) =~= all_buckets(index_of(before)).insert(last));
    }
}

/// The lengths of the five buckets add up to the number of entries.
pub proof fn lemma_index_counts(entries: Seq<Seq<char>>)
    ensures
        bucket_of(entries, TransportType::WebSocket).len() + bucket_of(
            entries,
            TransportType::Grpc,
        ).len() + bucket_of(entries, TransportType::Tcp).len() + bucket_of(
            entries,
            TransportType::Tls,
        ).len() + bucket_of(entries, TransportType::XHttp).len() == entries.len(),
    decreases entries.len(),
{
    if entries.len() > 0 {
        lemma_index_counts(entries.drop_last());
    }
}

/// The index of two lists in a row is the two indexes merged: work may be
/// handed out in parts and the partial indexes merged afterwards.
pub proof fn lemma_index_of_concat(first: Seq<Seq<char>>, second: Seq<Seq<char>>)
    ensures
        index_of(first + second) == merged(index_of(first), index_of(second)),
{
    assert forall|t: TransportType|
        bucket_of(first + second, t) == bucket_of(first, t) + bucket_of(second, t) by {
        lemma_bucket_of_concat(first, second, t);
    }
    assert(index_of(first + second) =~= merged(index_of(first), index_of(second)));
}

/// The bucket of two lists in a row is the two buckets in a row.
proof fn lemma_bucket_of_concat(first: Seq<Seq<char>>, second: Seq<Seq<char>>, t: TransportType)
    ensures
        bucket_of(first + second, t) == bucket_of(first, t) + bucket_of(second, t),
    decreases second.len(),
{
    if second.len() == 0 {
        assert(first + second =~= first);
        assert(bucket_of(first, t) + bucket_of(second, t) =~= bucket_of(first, t));
    } else {
        lemma_bucket_of_concat(first, second.drop_last(), t);
        assert((first + second).drop_last() =~= first + second.drop_last());
        assert((first + second).last() == second.last());
        assert(bucket_of(first + second, t) =~= bucket_of(first, t) + bucket_of(second, t));
    }
}

/// Merging is associative, and in what each bucket holds, and so in its
/// count, it does not depend on the order of the two indexes.
pub proof fn lemma_merged(
    x: Map<TransportType, Seq<Seq<char>>>,
    y: Map<TransportType, Seq<Seq<char>>>,
    z: Map<TransportType, Seq<Seq<char>>>,
)
    ensures
        merged(merged(x, y), z) == merged(x, merged(y, z)),
        forall|t: TransportType| #[trigger]
            merged(x, y)[t].to_multiset() == merged(y, x)[t].to_multiset(),
        forall|t: TransportType| #[trigger] merged(x, y)[t].len() == merged(y, x)[t].len(),
{
    assert forall|t: TransportType| #[trigger]
        merged(merged(x, y), z)[t] == merged(x, merged(y, z))[t] by {
        assert((x[t] + y[t]) + z[t] =~= x[t] + (y[t] + z[t]));
    }
    assert(merged(merged(x, y), z) =~= merged(x, merged(y, z)));
    assert forall|t: TransportType| #[trigger]
        merged(x, y)[t].to_multiset() == merged(y, x)[t].to_multiset() by {
        vstd::seq_lib::lemma_multiset_commutative(x[t], y[t]);
        vstd::seq_lib::lemma_multiset_commutative(y[t], x[t]);
        assert(x[t].to_multiset().add(y[t].to_multiset()) =~= y[t].to_multiset().add(
            x[t].to_multiset(),
        ));
    }
}

} // verus!
