//! What a run reads: the list of subscription URLs, and the bodies that the
//! URLs gave.
//!
//! Fetching is not done here. A caller fetches each URL once and hands over a
//! `FetchResult` for it; a failed fetch contributes no entry and stops
//! nothing.

use crate::encoding::{decode_base64, normalized, vless_marker};
use crate::text::{
    begins_with, blank, chars_of, is_blank, lines_of, split_lines, string_of, texts_of,
};
use vstd::prelude::*;
use vstd::std_specs::iter::IteratorSpec;

verus! {

/// A line that is an entry: it begins with `vless://`.
pub open spec fn is_config(line: Seq<char>) -> bool {
    vless_marker().is_prefix_of(line)
}

/// The entries among `lines`, in their order.
pub open spec fn configs_among(lines: Seq<Seq<char>>) -> Seq<Seq<char>>
    decreases lines.len(),
{
    if lines.len() == 0 {
        seq![]
    } else if is_config(lines.last()) {
        configs_among(lines.drop_last()).push(lines.last())
    } else {
        configs_among(lines.drop_last())
    }
}

/// The entries that a body holds: the entries among the lines of the body
/// with its base64 layers removed.
pub open spec fn configs_in(body: Seq<char>) -> Seq<Seq<char>> {
    configs_among(lines_of(normalized(body)))
}

/// A line of a subscriptions file that names a URL: it is not blank and does
/// not begin with `#`.
pub open spec fn is_url(line: Seq<char>) -> bool {
    !blank(line) && line.first() != '#'
}

/// The URLs among `lines`, in their order.
pub open spec fn urls_among(lines: Seq<Seq<char>>) -> Seq<Seq<char>>
    decreases lines.len(),
{
    if lines.len() == 0 {
        seq![]
    } else if is_url(lines.last()) {
        urls_among(lines.drop_last()).push(lines.last())
    } else {
        urls_among(lines.drop_last())
    }
}

/// The outcome of fetching one URL: the body, or why there is none.
#[derive(Debug)]
pub enum FetchResult {
    Body(String),
    Failed(String),
}

impl FetchResult {
    /// The entries that the outcome contributes: those of the body, and none
    /// for a failure.
    pub open spec fn configs(self) -> Seq<Seq<char>> {
        match self {
            FetchResult::Body(body) => configs_in(body@),
            FetchResult::Failed(_) => seq![],
        }
    }
}

/// The entries of all outcomes, in the order of the outcomes.
pub open spec fn gathered(results: Seq<FetchResult>) -> Seq<Seq<char>>
    decreases results.len(),
{
    if results.len() == 0 {
        seq![]
    } else {
        gathered(results.drop_last()) + results.last().configs()
    }
}

/// The entries among the lines of `text`, which is taken as it is.
pub fn config_lines(text: &str) -> (configs: Vec<String>)
    ensures
        configs.deep_view() == configs_among(lines_of(text@)),
{
    let chars = chars_of(text);
    let lines = split_lines(chars.as_slice());
    let vless = ['v', 'l', 'e', 's', 's', ':', '/', '/'];
    assert(vless@ =~= vless_marker());
    let ghost all = lines_of(text@);
    let mut configs: Vec<String> = Vec::new();
    let mut i: usize = 0;
    while i < lines.len()
        invariant
            i <= lines.len(),
            texts_of(lines@) == all,
            vless@ == vless_marker(),
            configs.deep_view() == configs_among(all.take(i as int)),
        decreases lines.len() - i,
    {
        let line = lines[i];
        proof {
            assert(all.take(i + 1).drop_last() =~= all.take(i as int));
            assert(all.take(i + 1).last() == line@);
        }
        if begins_with(line, vless.as_slice()) {
            let ghost before = configs.deep_view();
            configs.push(string_of(line));
            assert(configs.deep_view() =~= before.push(line@));
        }
        i += 1;
    }
    proof {
        assert(all.take(all.len() as int) =~= all);
    }
    configs
}

/// The entries that `body` holds, once its base64 layers are removed.
pub fn extract_configs(body: &str) -> (configs: Vec<String>)
    ensures
        configs.deep_view() == configs_in(body@),
{
    let text = decode_base64(body);
    config_lines(text.as_str())
}

/// The URLs of a subscriptions file: its lines, without the blank ones and
/// those that begin with `#`.
pub fn parse_subscriptions(text: &str) -> (urls: Vec<String>)
    ensures
        urls.deep_view() == urls_among(lines_of(text@)),
{
    let chars = chars_of(text);
    let lines = split_lines(chars.as_slice());
    let ghost all = lines_of(text@);
    let mut urls: Vec<String> = Vec::new();
    let mut i: usize = 0;
    while i < lines.len()
        invariant
            i <= lines.len(),
            texts_of(lines@) == all,
            urls.deep_view() == urls_among(all.take(i as int)),
        decreases lines.len() - i,
    {
        let line = lines[i];
        proof {
            assert(all.take(i + 1).drop_last() =~= all.take(i as int));
            assert(all.take(i + 1).last() == line@);
        }
        if !is_blank(line) && line[0] != '#' {
            let ghost before = urls.deep_view();
            urls.push(string_of(line));
            assert(urls.deep_view() =~= before.push(line@));
        }
        i += 1;
    }
    proof {
        assert(all.take(all.len() as int) =~= all);
    }
    urls
}

/// The entries that one outcome contributes.
pub fn configs_of(result: &FetchResult) -> (configs: Vec<String>)
    ensures
        configs.deep_view() == result.configs(),
{
    match result {
        FetchResult::Body(body) => extract_configs(body.as_str()),
        FetchResult::Failed(_) => {
            let configs: Vec<String> = Vec::new();
            assert(configs.deep_view() =~= Seq::empty());
            configs
        },
    }
}

/// The entries of all outcomes, in the order of the outcomes.
pub fn gather_configs(results: &Vec<FetchResult>) -> (configs: Vec<String>)
    ensures
        configs.deep_view() == gathered(results@),
{
    let mut configs: Vec<String> = Vec::new();
    let mut i: usize = 0;
    assert(configs.deep_view() =~= Seq::empty());
    while i < results.len()
        invariant
            i <= results.len(),
            configs.deep_view() == gathered(results@.take(i as int)),
        decreases results.len() - i,
    {
        let mut found = configs_of(&results[i]);
        proof {
            assert(results@.take(i + 1).drop_last() =~= results@.take(i as int));
            assert(results@.take(i + 1).last() == results@[i as int]);
        }
        let ghost before = configs.deep_view();
        let ghost added = found.deep_view();
        configs.append(&mut found);
        assert(configs.deep_view() =~= before + added);
        i += 1;
    }
    proof {
        assert(results@.take(results@.len() as int) =~= results@);
    }
    configs
}

} // verus!
