//! A whole run: from the outcomes of the fetches to what is written out.
//!
//! The entries of all outcomes are gathered, duplicates are removed, and the
//! distinct entries are indexed by category and cut into shards. A run fails
//! in one case only: when no outcome gave any entry.

use crate::category::{categorize, index_of, CategoryIndex};
use crate::dedupe::{deduplicate, distinct, lemma_distinct};
use crate::shard::{
    lemma_shard_count, shard_at, shard_count, split_configs, DEFAULT_SHARD_SIZE,
};
use crate::source::{gather_configs, gathered, FetchResult};
use vstd::prelude::*;

verus! {

/// Why a run gave nothing.
#[derive(Debug, Clone, Copy, PartialEq, Eq, Structural)]
pub enum PipelineError {
    /// No outcome gave any entry.
    EmptyAggregate,
}

impl PipelineError {
    /// What to tell the user, as a sequence of characters.
    pub open spec fn text(self) -> Seq<char> {
        match self {
            PipelineError::EmptyAggregate => "No configs downloaded!"@,
        }
    }

    /// What to tell the user.
    pub fn message(&self) -> (text: &'static str)
        ensures
            text@ == self.text(),
    {
        match self {
            PipelineError::EmptyAggregate => "No configs downloaded!",
        }
    }
}

/// A copy of `list`.
pub fn copy_entries(list: &Vec<String>) -> (copy: Vec<String>)
    ensures
        copy@ == list@,
{
    let mut copy: Vec<String> = Vec::new();
    let mut i: usize = 0;
    while i < list.len()
        invariant
            i <= list.len(),
            copy@ == list@.take(i as int),
        decreases list.len() - i,
    {
        copy.push(list[i].clone());
        assert(copy@ =~= list@.take(i + 1));
        i += 1;
    }
    assert(list@.take(list@.len() as int) =~= list@);
    copy
}

/// What a run gives: the distinct entries, from which their index by
/// category and their shards are made, and the size of a shard.
pub struct Aggregate {
    unique: Vec<String>,
    shard_size: usize,
}

impl Aggregate {
    #[verifier::type_invariant]
    spec fn inv(self) -> bool {
        &&& self.shard_size > 0
        &&& self.unique.deep_view().no_duplicates()
    }

    /// The distinct entries.
    pub closed spec fn entries(&self) -> Seq<Seq<char>> {
        self.unique.deep_view()
    }

    /// The size of a shard.
    pub closed spec fn size(&self) -> int {
        self.shard_size as int
    }

    /// The distinct entries, none of them twice.
    pub fn unique(&self) -> (unique: &Vec<String>)
        ensures
            unique.deep_view() == self.entries(),
            unique.deep_view().no_duplicates(),
    {
        proof {
            use_type_invariant(self);
        }
        &self.unique
    }

    /// The distinct entries by category.
    pub fn index(&self) -> (index: CategoryIndex)
        ensures
            index@ == index_of(self.entries()),
            index.wf(),
    {
        let copy = copy_entries(&self.unique);
        assert(copy.deep_view() =~= self.unique.deep_view());
        categorize(copy)
    }

    /// The size of a shard.
    pub fn shard_size(&self) -> (size: usize)
        ensures
            size == self.size(),
            size > 0,
    {
        proof {
            use_type_invariant(self);
        }
        self.shard_size
    }

    /// The shards of the distinct entries, in their order.
    pub fn shards(&self) -> (shards: Vec<&[String]>)
        ensures
            shards@.len() == shard_count(self.entries().len() as int, self.size()),
            forall|k: int|
                0 <= k < shards@.len() ==> (#[trigger] shards@[k]).deep_view() == shard_at(
                    self.entries(),
                    self.size(),
                    k,
                ),
    {
        proof {
            use_type_invariant(self);
        }
        let shards = split_configs(self.unique.as_slice(), self.shard_size);
        assert forall|k: int| 0 <= k < shards@.len() implies (#[trigger] shards@[k]).deep_view()
            == shard_at(self.entries(), self.size(), k) by {
            let total = self.unique@.len() as int;
            lemma_shard_count(total, self.size());
            assert(0 <= k * self.size() < total);
            assert((k + 1) * self.size() == k * self.size() + self.size()) by (nonlinear_arith);
            assert(shards@[k]@.len() == shard_at(self.entries(), self.size(), k).len());
            assert(shards@[k].deep_view() =~= shard_at(self.entries(), self.size(), k));
        }
        shards
    }
}

/// A run, set up with the size of its shards.
pub struct Pipeline {
    shard_size: usize,
}

impl Pipeline {
    #[verifier::type_invariant]
    spec fn inv(self) -> bool {
        self.shard_size > 0
    }

    /// The size of a shard.
    pub closed spec fn size(&self) -> int {
        self.shard_size as int
    }

    /// A run with shards of `shard_size` entries; there is none with shards
    /// of no entry.
    pub fn new(shard_size: usize) -> (pipeline: Option<Pipeline>)
        ensures
            pipeline is None <==> shard_size == 0,
            pipeline is Some ==> pipeline.unwrap().size() == shard_size,
    {
        if shard_size == 0 {
            None
        } else {
            Some(Pipeline { shard_size })
        }
    }

    /// A run with shards of `DEFAULT_SHARD_SIZE` entries.
    pub fn with_default_size() -> (pipeline: Pipeline)
        ensures
            pipeline.size() == DEFAULT_SHARD_SIZE,
    {
        Pipeline { shard_size: DEFAULT_SHARD_SIZE }
    }

    /// What the run makes of the entries that were gathered: it fails where
    /// there are none, and else gives the distinct ones with their index.
    pub fn aggregate(&self, configs: Vec<String>) -> (outcome: Result<Aggregate, PipelineError>)
        ensures
            outcome is Err <==> configs.len() == 0,
            match outcome {
                Ok(aggregate) => {
                    &&& aggregate.entries() == distinct(configs.deep_view())
                    &&& aggregate.entries().len() > 0
                    &&& aggregate.size() == self.size()
                },
                Err(error) => error == PipelineError::EmptyAggregate,
            },
    {
        proof {
            use_type_invariant(self);
        }
        if configs.len() == 0 {
            return Err(PipelineError::EmptyAggregate);
        }
        let ghost all = configs.deep_view();
        let unique = deduplicate(configs);
        proof {
            lemma_distinct(all);
            assert(all.to_set().contains(all[0]));
            assert(distinct(all).contains(all[0]));
        }
        Ok(Aggregate { unique, shard_size: self.shard_size })
    }

    /// The run on the outcomes of the fetches. It fails exactly when no
    /// outcome gave an entry; a failed fetch alone stops nothing.
    pub fn run(&self, results: &Vec<FetchResult>) -> (outcome: Result<Aggregate, PipelineError>)
        ensures
            outcome is Err <==> gathered(results@).len() == 0,
            match outcome {
                Ok(aggregate) => {
                    &&& aggregate.entries() == distinct(gathered(results@))
                    &&& aggregate.size() == self.size()
                },
                Err(error) => error == PipelineError::EmptyAggregate,
            },
    {
        let configs = gather_configs(results);
        self.aggregate(configs)
    }
}

} // verus!
