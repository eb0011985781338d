//! What is written out: the names of the files and what each holds.
//!
//! Writing is not done here. A file of entries holds one entry per line, each
//! line closed by a line feed.

use crate::text::{chars_of, matches_at, occurs_at, push_char};
use crate::transport::TransportType;
use vstd::prelude::*;
use vstd::string::StringExecFns;

verus! {

/// The digit of a number below ten.
pub open spec fn digit(d: nat) -> char {
    if d == 0 {
        '0'
    } else if d == 1 {
        '1'
    } else if d == 2 {
        '2'
    } else if d == 3 {
        '3'
    } else if d == 4 {
        '4'
    } else if d == 5 {
        '5'
    } else if d == 6 {
        '6'
    } else if d == 7 {
        '7'
    } else if d == 8 {
        '8'
    } else {
        '9'
    }
}

/// The number in decimal digits, without leading zeros.
pub open spec fn decimal(n: nat) -> Seq<char>
    decreases n,
{
    if n < 10 {
        seq![digit(n)]
    } else {
        decimal(n / 10).push(digit(n % 10))
    }
}

/// The name of the file that holds every distinct entry.
pub open spec fn all_configs_name() -> Seq<char> {
    "all_vless_config.txt"@
}

/// The name of the file that holds the entries of category `t`.
pub open spec fn transport_name(t: TransportType) -> Seq<char> {
    "vless_"@ + t.name() + ".txt"@
}

/// The name of the file that holds shard `number`, counted from one.
pub open spec fn shard_name(number: nat) -> Seq<char> {
    "vless_config_"@ + decimal(number) + ".txt"@
}

/// The text of a file of entries: every entry followed by a line feed.
pub open spec fn file_text(entries: Seq<Seq<char>>) -> Seq<char>
    decreases entries.len(),
{
    if entries.len() == 0 {
        seq![]
    } else {
        file_text(entries.drop_last()) + entries.last().push('\n')
    }
}

/// The link to `file` in the repository at `repo_url`.
pub open spec fn raw_link_text(repo_url: Seq<char>, file: Seq<char>) -> Seq<char> {
    repo_url + "/raw/main/configs/"@ + file
}

/// The line of the index document for `file`.
pub open spec fn index_line(repo_url: Seq<char>, file: Seq<char>) -> Seq<char> {
    "- ["@ + file + "]("@ + raw_link_text(repo_url, file) + ")\n"@
}

/// The lines of the index document for `files`, in their order.
pub open spec fn index_lines(repo_url: Seq<char>, files: Seq<Seq<char>>) -> Seq<char>
    decreases files.len(),
{
    if files.len() == 0 {
        seq![]
    } else {
        index_lines(repo_url, files.drop_last()) + index_line(repo_url, files.last())
    }
}

/// A file name with the extension `txt`: it ends in `.txt` and is more than
/// that.
pub open spec fn has_txt_extension(name: Seq<char>) -> bool {
    name.len() > 4 && occurs_at(name, ".txt"@, name.len() - 4)
}

/// The number in decimal digits.
pub fn decimal_string(n: usize) -> (text: String)
    ensures
        text@ == decimal(n as nat),
{
    let digits = ['0', '1', '2', '3', '4', '5', '6', '7', '8', '9'];
    let mut reversed: Vec<char> = Vec::new();
    let mut rest: usize = n;
    loop
        invariant_except_break
            decimal(n as nat) == decimal(rest as nat) + reversed@.reverse(),
        invariant
            digits@ == seq!['0', '1', '2', '3', '4', '5', '6', '7', '8', '9'],
        ensures
            decimal(n as nat) == reversed@.reverse(),
        decreases rest,
    {
        let d = digits[rest % 10];
        let ghost before = reversed@;
        assert(d == digit((rest % 10) as nat));
        reversed.push(d);
        assert(reversed@.reverse() =~= seq![d] + before.reverse());
        if rest < 10 {
            assert(decimal(rest as nat) + before.reverse() =~= reversed@.reverse());
            break;
        }
        assert(decimal(rest as nat) + before.reverse() =~= decimal((rest / 10) as nat)
            + reversed@.reverse());
        rest = rest / 10;
    }
    let mut text = String::new();
    let mut left: usize = reversed.len();
    while left > 0
        invariant
            left <= reversed.len(),
            text@ == reversed@.reverse().take(reversed.len() - left),
        decreases left,
    {
        left -= 1;
        push_char(&mut text, reversed[left]);
        assert(text@ =~= reversed@.reverse().take(reversed.len() - left));
    }
    assert(reversed@.reverse().take(reversed.len() as int) =~= reversed@.reverse());
    text
}

/// The name of the file that holds every distinct entry.
pub fn all_configs_file() -> (name: &'static str)
    ensures
        name@ == all_configs_name(),
{
    "all_vless_config.txt"
}

/// The name of the file that holds the entries of category `t`.
pub fn transport_file(t: TransportType) -> (name: String)
    ensures
        name@ == transport_name(t),
{
    let mut name = "vless_".to_owned();
    name.append(t.as_str());
    name.append(".txt");
    name
}

/// The name of the file that holds shard `number`, counted from one.
pub fn shard_file(number: usize) -> (name: String)
    ensures
        name@ == shard_name(number as nat),
{
    let mut name = "vless_config_".to_owned();
    let digits = decimal_string(number);
    name.append(digits.as_str());
    name.append(".txt");
    name
}

/// The text of a file of entries.
pub fn render_lines(entries: &[String]) -> (text: String)
    ensures
        text@ == file_text(entries.deep_view()),
{
    let ghost all = entries.deep_view();
    let mut text = String::new();
    let mut i: usize = 0;
    while i < entries.len()
        invariant
            i <= entries.len(),
            all == entries.deep_view(),
            text@ == file_text(all.take(i as int)),
        decreases entries.len() - i,
    {
        proof {
            assert(all.take(i + 1).drop_last() =~= all.take(i as int));
            assert(all.take(i + 1).last() == entries@[i as int]@);
        }
        let ghost before = text@;
        text.append(entries[i].as_str());
        push_char(&mut text, '\n');
        assert(text@ =~= before + entries@[i as int]@.push('\n'));
        i += 1;
    }
    assert(all.take(all.len() as int) =~= all);
    text
}

/// Tells whether `name` has the extension `txt`.
pub fn is_txt_file(name: &[char]) -> (yes: bool)
    ensures
        yes == has_txt_extension(name@),
{
    let ext = ['.', 't', 'x', 't'];
    proof {
        reveal_strlit(".txt");
        assert(ext@ =~= ".txt"@);
    }
    name.len() > 4 && matches_at(name, ext.as_slice(), name.len() - 4)
}

/// The link to `file` in the repository at `repo_url`.
pub fn raw_link(repo_url: &str, file: &str) -> (link: String)
    ensures
        link@ == raw_link_text(repo_url@, file@),
{
    let mut link = repo_url.to_owned();
    link.append("/raw/main/configs/");
    link.append(file);
    link
}

/// The lines of the index document for `files`, in their order.
pub fn render_index(repo_url: &str, files: &[String]) -> (text: String)
    ensures
        text@ == index_lines(repo_url@, files.deep_view()),
{
    let ghost all = files.deep_view();
    let mut text = String::new();
    let mut i: usize = 0;
    while i < files.len()
        invariant
            i <= files.len(),
            all == files.deep_view(),
            text@ == index_lines(repo_url@, all.take(i as int)),
        decreases files.len() - i,
    {
        proof {
            assert(all.take(i + 1).drop_last() =~= all.take(i as int));
            assert(all.take(i + 1).last() == files@[i as int]@);
        }
        let ghost before = text@;
        let link = raw_link(repo_url, files[i].as_str());
        text.append("- [");
        text.append(files[i].as_str());
        text.append("](");
        text.append(link.as_str());
        text.append(")\n");
        assert(text@ =~= before + index_line(repo_url@, files@[i as int]@));
        i += 1;
    }
    assert(all.take(all.len() as int) =~= all);
    text
}

/// `a` comes before `b`, or is `b`, in the order of a dictionary: the first
/// character in which they differ decides, and a text comes before every text
/// that it begins.
pub open spec fn lex_le(a: Seq<char>, b: Seq<char>) -> bool
    decreases a.len(),
{
    if a.len() == 0 {
        true
    } else if b.len() == 0 {
        false
    } else if a[0] != b[0] {
        a[0] < b[0]
    } else {
        lex_le(a.drop_first(), b.drop_first())
    }
}

/// The list is in the order of `lex_le`.
pub open spec fn sorted_texts(list: Seq<Seq<char>>) -> bool {
    forall|i: int, j: int| 0 <= i < j < list.len() ==> lex_le(list[i], list[j])
}

/// The names among `names` that have the extension `txt`, in their order.
pub open spec fn txt_among(names: Seq<Seq<char>>) -> Seq<Seq<char>>
    decreases names.len(),
{
    if names.len() == 0 {
        seq![]
    } else if has_txt_extension(names.last()) {
        txt_among(names.drop_last()).push(names.last())
    } else {
        txt_among(names.drop_last())
    }
}

/// Of two texts one comes before the other, or they are the same.
pub proof fn lemma_lex_total(a: Seq<char>, b: Seq<char>)
    ensures
        lex_le(a, b) || lex_le(b, a),
        lex_le(a, b) && lex_le(b, a) ==> a == b,
    decreases a.len(),
{
    if a.len() > 0 && b.len() > 0 && a[0] == b[0] {
        lemma_lex_total(a.drop_first(), b.drop_first());
        if lex_le(a, b) && lex_le(b, a) {
            assert(a =~= seq![a[0]] + a.drop_first());
            assert(b =~= seq![b[0]] + b.drop_first());
        }
    } else if a.len() == 0 && b.len() == 0 {
        assert(a =~= b);
    }
}

/// What comes before a text comes before all that the text comes before.
pub proof fn lemma_lex_transitive(a: Seq<char>, b: Seq<char>, c: Seq<char>)
    requires
        lex_le(a, b),
        lex_le(b, c),
    ensures
        lex_le(a, c),
    decreases a.len(),
{
    if a.len() > 0 && b.len() > 0 && c.len() > 0 && a[0] == b[0] && b[0] == c[0] {
        lemma_lex_transitive(a.drop_first(), b.drop_first(), c.drop_first());
    }
}

/// Tells whether `a` comes before `b`, or is `b`, in the order of a
/// dictionary.
pub fn text_le(a: &[char], b: &[char]) -> (yes: bool)
    ensures
        yes == lex_le(a@, b@),
{
    let mut i: usize = 0;
    assert(a@.skip(0) =~= a@ && b@.skip(0) =~= b@);
    while i < a.len() && i < b.len()
        invariant
            i <= a.len(),
            i <= b.len(),
            lex_le(a@, b@) == lex_le(a@.skip(i as int), b@.skip(i as int)),
        decreases a.len() - i,
    {
        if a[i] != b[i] {
            return a[i] < b[i];
        }
        assert(a@.skip(i as int).drop_first() =~= a@.skip(i + 1));
        assert(b@.skip(i as int).drop_first() =~= b@.skip(i + 1));
        i += 1;
    }
    i == a.len()
}

/// The names among `names` that have the extension `txt`, sorted in the
/// order of a dictionary: the files that the index document lists.
pub fn index_files(names: &Vec<String>) -> (files: Vec<String>)
    ensures
        sorted_texts(files.deep_view()),
        files.deep_view().to_multiset() == txt_among(names.deep_view()).to_multiset(),
{
    let ghost all = names.deep_view();
    let mut files: Vec<String> = Vec::new();
    let mut i: usize = 0;
    assert(files.deep_view() =~= txt_among(all.take(0)));
    while i < names.len()
        invariant
            i <= names.len(),
            all == names.deep_view(),
            sorted_texts(files.deep_view()),
            files.deep_view().to_multiset() == txt_among(all.take(i as int)).to_multiset(),
        decreases names.len() - i,
    {
        proof {
            assert(all.take(i + 1).drop_last() =~= all.take(i as int));
            assert(all.take(i + 1).last() == names@[i as int]@);
        }
        let name = chars_of(names[i].as_str());
        if is_txt_file(name.as_slice()) {
            let ghost before = files.deep_view();
            let mut at: usize = 0;
            while at < files.len() && text_le(chars_of(files[at].as_str()).as_slice(), name.as_slice())
                invariant
                    at <= files.len(),
                    before == files.deep_view(),
                    forall|j: int| 0 <= j < at ==> lex_le(before[j], name@),
                decreases files.len() - at,
            {
                at += 1;
            }
            files.insert(at, names[i].clone());
            proof {
                let now = files.deep_view();
                assert(now =~= before.insert(at as int, name@));
                vstd::seq_lib::to_multiset_insert(before, at as int, name@);
                let listed = txt_among(all.take(i as int));
                vstd::seq_lib::to_multiset_build(listed, name@);
                assert(txt_among(all.take(i + 1)) == listed.push(name@));
                assert(now.to_multiset() =~= txt_among(all.take(i + 1)).to_multiset());
                assert forall|p: int, q: int| 0 <= p < q < now.len() implies lex_le(
                    now[p],
                    now[q],
                ) by {
                    if q == at {
                        assert(now[p] == before[p]);
                    } else if p == at {
                        assert(now[q] == before[q - 1]);
                        lemma_lex_total(before[at as int], name@);
                        if q - 1 > at {
                            lemma_lex_transitive(name@, before[at as int], before[q - 1]);
                        }
                    } else {
                        let p0 = if p < at { p } else { p - 1 };
                        let q0 = if q < at { q } else { q - 1 };
                        assert(now[p] == before[p0] && now[q] == before[q0]);
                    }
                }
            }
        }
        i += 1;
    }
    assert(all.take(all.len() as int) =~= all);
    files
}

} // verus!
