//! Removing duplicate entries.
//!
//! Two entries are the same when their texts are equal, character for
//! character; nothing is normalised. Of equal entries the first is kept, so
//! the result lists the distinct entries by first occurrence.
//!
//! To keep the work near linear, the entries kept are listed in a hash map
//! under a number computed from their bytes. The number only narrows the
//! search: whether two entries are the same is always decided by their texts.

use std::collections::HashMap;
use vstd::prelude::*;
use vstd::std_specs::iter::IteratorSpec;
use vstd::utf8::encode_utf8;

verus! {

/// The distinct entries of `entries`, each at the place of its first
/// occurrence.
pub open spec fn distinct(entries: Seq<Seq<char>>) -> Seq<Seq<char>>
    decreases entries.len(),
{
    if entries.len() == 0 {
        seq![]
    } else {
        let before = distinct(entries.drop_last());
        if before.contains(entries.last()) {
            before
        } else {
            before.push(entries.last())
        }
    }
}

/// A number that stands for a sequence of bytes in the table of
/// `deduplicate`. Equal sequences have equal numbers; nothing else is asked
/// of it.
pub open spec fn bytes_hash(bytes: Seq<u8>) -> u64
    decreases bytes.len(),
{
    if bytes.len() == 0 {
        0xcbf2_9ce4_8422_2325
    } else {
        (bytes_hash(bytes.drop_last()) ^ (bytes.last() as u64)).wrapping_mul(0x100_0000_01b3)
    }
}

/// The number that stands for a text: that of its bytes in UTF-8.
pub open spec fn text_hash(text: Seq<char>) -> u64 {
    bytes_hash(encode_utf8(text))
}

/// The number that stands for `entry`.
pub fn entry_hash(entry: &str) -> (hash: u64)
    ensures
        hash == text_hash(entry@),
{
    let bytes = entry.as_bytes();
    let mut hash: u64 = 0xcbf2_9ce4_8422_2325;
    let mut i: usize = 0;
    while i < bytes.len()
        invariant
            i <= bytes.len(),
            hash == bytes_hash(bytes@.take(i as int)),
        decreases bytes.len() - i,
    {
        assert(bytes@.take(i + 1).drop_last() =~= bytes@.take(i as int));
        hash = (hash ^ (bytes[i] as u64)).wrapping_mul(0x100_0000_01b3);
        i += 1;
    }
    assert(bytes@.take(bytes@.len() as int) =~= bytes@);
    hash
}

/// Tells whether one of the entries of `list` at the positions `places` has
/// the text of `entry`.
pub fn holds_entry_at(list: &Vec<String>, places: &Vec<usize>, entry: &String) -> (yes: bool)
    requires
        forall|k: int| 0 <= k < places@.len() ==> places@[k] < list@.len(),
    ensures
        yes == exists|k: int| 0 <= k < places@.len() && list@[places@[k] as int]@ == entry@,
{
    let mut k: usize = 0;
    while k < places.len()
        invariant
            k <= places.len(),
            forall|j: int| 0 <= j < places@.len() ==> places@[j] < list@.len(),
            forall|j: int| 0 <= j < k ==> list@[places@[j] as int]@ != entry@,
        decreases places.len() - k,
    {
        if list[places[k]] == *entry {
            return true;
        }
        k += 1;
    }
    false
}

/// The table of `deduplicate` is in step with the entries kept so far: every
/// entry kept is listed under its number, and nothing is listed that was not
/// kept.
pub open spec fn table_covers(table: Map<u64, Vec<usize>>, kept: Seq<Seq<char>>) -> bool {
    &&& forall|j: int|
        0 <= j < kept.len() ==> table.contains_key(text_hash(#[trigger] kept[j])) && table[text_hash(
            kept[j],
        )]@.contains(j as usize)
    &&& forall|h: u64, k: int|
        table.contains_key(h) && 0 <= k < table[h]@.len() ==> (#[trigger] table[h]@[k]) < kept.len()
}

/// The distinct entries of `configs`, by first occurrence. Entries are found
/// again through a table keyed by `text_hash`, so that an entry is compared
/// only with those kept before it that have its number.
pub fn deduplicate(configs: Vec<String>) -> (unique: Vec<String>)
    ensures
        unique.deep_view() == distinct(configs.deep_view()),
        unique.len() <= configs.len(),
{
    broadcast use vstd::std_specs::hash::group_hash_axioms;

    let ghost all = configs.deep_view();
    let mut unique: Vec<String> = Vec::new();
    let mut table: HashMap<u64, Vec<usize>> = HashMap::new();
    for entry in it: configs
        invariant
            it.seq().len() == all.len(),
            forall|j: int| 0 <= j < all.len() ==> (#[trigger] it.seq()[j])@ == all[j],
            unique.deep_view() == distinct(all.take(it.index() as int)),
            unique.len() <= it.index(),
            table_covers(table@, unique.deep_view()),
    {
        proof {
            let k = it.index() as int;
            assert(all.take(k + 1).drop_last() =~= all.take(k));
            assert(all.take(k + 1).last() == entry@);
        }
        let ghost kept = unique.deep_view();
        let hash = entry_hash(entry.as_str());
        let found = match table.get(&hash) {
            Some(places) => holds_entry_at(&unique, places, &entry),
            None => false,
        };
        proof {
            if kept.contains(entry@) {
                let j = choose|j: int| 0 <= j < kept.len() && kept[j] == entry@;
                assert(table@[hash]@.contains(j as usize));
                let k = choose|k: int| 0 <= k < table@[hash]@.len() && table@[hash]@[k] == j as usize;
                assert(unique@[table@[hash]@[k] as int]@ == entry@);
            }
            if found {
                let k = choose|k: int|
                    0 <= k < table@[hash]@.len() && unique@[table@[hash]@[k] as int]@ == entry@;
                assert(kept[table@[hash]@[k] as int] == entry@);
            }
            assert(found == kept.contains(entry@));
        }
        if !found {
            let at = unique.len();
            let ghost before = table@;
            let mut places = match table.remove(&hash) {
                Some(places) => places,
                None => Vec::new(),
            };
            let ghost listed = places@;
            places.push(at);
            table.insert(hash, places);
            unique.push(entry);
            proof {
                let now = unique.deep_view();
                assert(now =~= kept.push(entry@));
                assert(before.contains_key(hash) ==> listed == before[hash]@);
                assert forall|j: int| 0 <= j < now.len() implies table@.contains_key(
                    text_hash(#[trigger] now[j]),
                ) && table@[text_hash(now[j])]@.contains(j as usize) by {
                    if j < kept.len() {
                        assert(now[j] == kept[j]);
                        let h = text_hash(kept[j]);
                        assert(before[h]@.contains(j as usize));
                        if h == hash {
                            let k = choose|k: int| 0 <= k < listed.len() && listed[k] == j as usize;
                            assert(table@[hash]@[k] == j as usize);
                        }
                    } else {
                        assert(table@[hash]@[listed.len() as int] == at);
                    }
                }
                assert forall|h: u64, k: int|
                    table@.contains_key(h) && 0 <= k < table@[h]@.len() implies (
                #[trigger] table@[h]@[k]) < now.len() by {
                    if h == hash {
                        if k < listed.len() {
                            assert(table@[h]@[k] == before[h]@[k]);
                        }
                    } else {
                        assert(table@[h]@[k] == before[h]@[k]);
                    }
                }
            }
        }
    }
    proof {
        assert(all.take(all.len() as int) =~= all);
    }
    unique
}

/// What `distinct` keeps: every text of `entries` and no other, none of them
/// twice, and never more than `entries` holds.
pub proof fn lemma_distinct(entries: Seq<Seq<char>>)
    ensures
        distinct(entries).no_duplicates(),
        distinct(entries).to_set() == entries.to_set(),
        distinct(entries).len() <= entries.len(),
    decreases entries.len(),
{
    if entries.len() > 0 {
        let before = entries.drop_last();
        let last = entries.last();
        lemma_distinct(before);
        let kept = distinct(entries);
        assert forall|t: Seq<char>| kept.to_set().contains(t) == entries.to_set().contains(
            t,
        ) by {
            if kept.contains(t) {
                let i = choose|i: int| 0 <= i < kept.len() && kept[i] == t;
                if i < distinct(before).len() {
                    assert(distinct(before)[i] == t);
                    assert(distinct(before).to_set().contains(t));
                    assert(before.contains(t));
                    let j = choose|j: int| 0 <= j < before.len() && before[j] == t;
                    assert(entries[j] == t);
                } else {
                    assert(t == last);
                    assert(entries[entries.len() - 1] == t);
                }
            }
            if entries.contains(t) {
                let j = choose|j: int| 0 <= j < entries.len() && entries[j] == t;
                if j < before.len() {
                    assert(before[j] == t);
                    assert(before.to_set().contains(t));
                    assert(distinct(before).contains(t));
                    let i = choose|i: int| 0 <= i < distinct(before).len() && distinct(before)[i]
                        == t;
                    assert(kept[i] == t);
                } else {
                    assert(t == last);
                    if distinct(before).contains(last) {
                        let i = choose|i: int| 0 <= i < distinct(before).len() && distinct(
                            before,
                        )[i] == last;
                        assert(kept[i] == t);
                    } else {
                        assert(kept[kept.len() - 1] == t);
                    }
                }
            }
        }
        assert(kept.to_set() =~= entries.to_set());
    } else {
        assert(distinct(entries).to_set() =~= entries.to_set());
    }
}

/// A list without duplicates is what `distinct` makes of it.
pub proof fn lemma_distinct_of_unique(entries: Seq<Seq<char>>)
    requires
        entries.no_duplicates(),
    ensures
        distinct(entries) == entries,
    decreases entries.len(),
{
    if entries.len() > 0 {
        let before = entries.drop_last();
        lemma_distinct_of_unique(before);
        if before.contains(entries.last()) {
            let i = choose|i: int| 0 <= i < before.len() && before[i] == entries.last();
            assert(entries[i] == entries[entries.len() - 1]);
        }
        assert(before.push(entries.last()) =~= entries);
    }
}

/// Removing duplicates twice gives what removing them once gives.
pub proof fn lemma_distinct_idempotent(entries: Seq<Seq<char>>)
    ensures
        distinct(distinct(entries)) == distinct(entries),
{
    lemma_distinct(entries);
    lemma_distinct_of_unique(distinct(entries));
}

} // verus!
