//! Cutting a list into shards of bounded size.
//!
//! Shards are cut by position alone: shard `k`, counted from zero, holds the
//! entries from `k * size` up to `(k + 1) * size`, and the last one stops where
//! the list stops. The shards in their order, one after the other, are the
//! list again.

use vstd::prelude::*;
use vstd::slice::slice_subrange;

verus! {

/// The shard size of a run that names none.
pub const DEFAULT_SHARD_SIZE: usize = 300;

/// The number of shards of `size` that `total` entries fill: `total / size`,
/// rounded up.
pub open spec fn shard_count(total: int, size: int) -> int {
    if total % size == 0 {
        total / size
    } else {
        total / size + 1
    }
}

/// Where shard `k` ends in a list of `total` entries.
pub open spec fn shard_end(total: int, size: int, k: int) -> int {
    if (k + 1) * size < total {
        (k + 1) * size
    } else {
        total
    }
}

/// Shard `k` of `entries`, counted from zero.
pub open spec fn shard_at<A>(entries: Seq<A>, size: int, k: int) -> Seq<A> {
    entries.subrange(k * size, shard_end(entries.len() as int, size, k))
}

/// The first `count` shards of `entries`.
pub open spec fn leading_shards<A>(entries: Seq<A>, size: int, count: int) -> Seq<Seq<A>> {
    Seq::new(count as nat, |k: int| shard_at(entries, size, k))
}

/// All the shards of `entries`, in their order.
pub open spec fn shards_of<A>(entries: Seq<A>, size: int) -> Seq<Seq<A>> {
    leading_shards(entries, size, shard_count(entries.len() as int, size))
}

/// The lengths of `shards`, added up.
pub open spec fn total_len<A>(shards: Seq<Seq<A>>) -> int
    decreases shards.len(),
{
    if shards.len() == 0 {
        0
    } else {
        total_len(shards.drop_last()) + shards.last().len()
    }
}

/// `shard_count` is the least number of shards that hold `total` entries.
pub proof fn lemma_shard_count(total: int, size: int)
    requires
        0 <= total,
        0 < size,
    ensures
        0 <= shard_count(total, size),
        shard_count(total, size) * size >= total,
        (shard_count(total, size) - 1) * size < total || total == 0,
        total == 0 <==> shard_count(total, size) == 0,
        forall|k: int| 0 <= k < shard_count(total, size) ==> #[trigger] (k * size) < total,
{
    let c = shard_count(total, size);
    let q = total / size;
    let r = total % size;
    assert(total == q * size + r && 0 <= r < size && 0 <= q && (q == 0 ==> q * size == 0) && (total
        == 0 ==> q == 0)) by (nonlinear_arith)
        requires
            0 <= total,
            0 < size,
            q == total / size,
            r == total % size,
    ;
    assert((q + 1) * size == q * size + size && (q - 1) * size == q * size - size)
        by (nonlinear_arith);
    assert forall|k: int| 0 <= k < c implies #[trigger] (k * size) < total by {
        assert(k * size <= (c - 1) * size) by (nonlinear_arith)
            requires
                0 <= k <= c - 1,
                0 < size,
        ;
    }
}

/// A number of shards that reaches the end of the list, and whose last shard
/// is not empty, is `shard_count`.
proof fn lemma_shard_count_unique(total: int, size: int, n: int)
    requires
        0 <= total,
        0 < size,
        0 <= n,
        n * size >= total,
        n > 0 ==> (n - 1) * size < total,
    ensures
        n == shard_count(total, size),
{
    let c = shard_count(total, size);
    lemma_shard_count(total, size);
    if n < c {
        assert(n * size <= (c - 1) * size) by (nonlinear_arith)
            requires
                0 <= n <= c - 1,
                0 < size,
        ;
    }
    if c < n {
        assert(c * size <= (n - 1) * size) by (nonlinear_arith)
            requires
                0 <= c <= n - 1,
                0 < size,
        ;
    }
}

/// The shards of `configs`, in their order: each a part of `configs`, none
/// empty, all but the last of `split_size` entries.
pub fn split_configs<'a>(configs: &'a [String], split_size: usize) -> (shards: Vec<&'a [String]>)
    requires
        split_size > 0,
    ensures
        shards@.len() == shard_count(configs@.len() as int, split_size as int),
        forall|k: int|
            0 <= k < shards@.len() ==> (#[trigger] shards@[k])@ == shard_at(
                configs@,
                split_size as int,
                k,
            ),
{
    let total = configs.len();
    let ghost size = split_size as int;
    let mut shards: Vec<&'a [String]> = Vec::new();
    let mut start: usize = 0;
    assert(shards@.len() * size == 0) by (nonlinear_arith)
        requires
            shards@.len() == 0,
    ;
    while start < total
        invariant
            0 < size == split_size,
            total == configs@.len(),
            start <= total,
            start < total ==> start == shards@.len() * size,
            shards@.len() * size >= start,
            shards@.len() > 0 ==> (shards@.len() - 1) * size < total,
            forall|k: int|
                0 <= k < shards@.len() ==> (#[trigger] shards@[k])@ == shard_at(
                    configs@,
                    size,
                    k,
                ),
        decreases total - start,
    {
        let ghost k = shards@.len() as int;
        let end = if total - start > split_size {
            start + split_size
        } else {
            total
        };
        proof {
            assert((k + 1) * size == k * size + size) by (nonlinear_arith);
            assert(end == shard_end(total as int, size, k));
        }
        shards.push(slice_subrange(configs, start, end));
        start = end;
    }
    proof {
        lemma_shard_count_unique(total as int, size, shards@.len() as int);
    }
    shards
}

/// The first `count` shards, one after the other, are the list up to the end
/// of the last of them.
proof fn lemma_leading_shards<A>(entries: Seq<A>, size: int, count: int)
    requires
        0 < size,
        0 <= count <= shard_count(entries.len() as int, size),
    ensures
        leading_shards(entries, size, count).flatten() == entries.take(
            if count == 0 {
                0
            } else {
                shard_end(entries.len() as int, size, count - 1)
            },
        ),
        total_len(leading_shards(entries, size, count)) == if count == 0 {
            0
        } else {
            shard_end(entries.len() as int, size, count - 1)
        },
    decreases count,
{
    let total = entries.len() as int;
    lemma_shard_count(total, size);
    if count == 0 {
        assert(leading_shards(entries, size, count) =~= Seq::<Seq<A>>::empty());
        assert(entries.take(0) =~= Seq::<A>::empty());
    } else {
        let before = leading_shards(entries, size, count - 1);
        let last = shard_at(entries, size, count - 1);
        lemma_leading_shards(entries, size, count - 1);
        assert(leading_shards(entries, size, count) =~= before.push(last));
        assert(leading_shards(entries, size, count).drop_last() =~= before);
        before.lemma_flatten_push(last);
        let from = (count - 1) * size;
        assert(from < total);
        assert((count - 1 + 1) * size == from + size) by (nonlinear_arith)
            requires
                from == (count - 1) * size,
        ;
        if count - 1 > 0 {
            assert((count - 2) * size < total) by {
                assert(0 <= count - 2 < shard_count(total, size));
            }
            assert((count - 2 + 1) * size == from) by (nonlinear_arith)
                requires
                    from == (count - 1) * size,
            ;
            assert(shard_end(total, size, count - 2) == from);
        }
        let to = shard_end(total, size, count - 1);
        assert(entries.take(from) + entries.subrange(from, to) =~= entries.take(to));
    }
}

/// The shards cover the list: one after the other they are the list again,
/// their lengths add up to its length, none is empty, and every shard but
/// the last holds exactly `size` entries.
pub proof fn lemma_shards_cover<A>(entries: Seq<A>, size: int)
    requires
        0 < size,
    ensures
        shards_of(entries, size).flatten() == entries,
        total_len(shards_of(entries, size)) == entries.len(),
        forall|k: int|
            0 <= k < shards_of(entries, size).len() - 1 ==> (#[trigger] shards_of(
                entries,
                size,
            )[k]).len() == size,
        forall|k: int|
            0 <= k < shards_of(entries, size).len() ==> 0 < (#[trigger] shards_of(
                entries,
                size,
            )[k]).len() <= size,
{
    let total = entries.len() as int;
    let count = shard_count(total, size);
    lemma_shard_count(total, size);
    lemma_leading_shards(entries, size, count);
    if count > 0 {
        assert((count - 1 + 1) * size == count * size);
    }
    assert(entries.take(total) =~= entries);
    assert forall|k: int| 0 <= k < count implies 0 < (#[trigger] shards_of(entries, size)[k]).len()
        <= size && (k < count - 1 ==> shards_of(entries, size)[k].len() == size) by {
        assert(k * size < total);
        assert((k + 1) * size == k * size + size) by (nonlinear_arith);
        if k < count - 1 {
            assert((k + 1) * size < total) by {
                assert(0 <= k + 1 < count);
            }
        }
    }
}

} // verus!
