//! Unwrapping the base64 layers of a subscription body.
//!
//! A body may be plain text, or plain text wrapped in base64 one or more times.
//! `decode_base64` removes up to `MAX_LAYERS` layers and stops as soon as the
//! text is plain, is too short to be a layer, holds a character that base64
//! does not use, does not decode, does not decode to text, or decodes to
//! itself. Deeper nesting is left partly decoded.
//!
//! The base64 decoding itself is done by the `base64` crate; what it returns
//! is named `base64_decoded`, and everything around it is stated over that
//! name.

use crate::text::{begins_with, chars_of, matches_at};
use vstd::prelude::*;
use vstd::slice::slice_subrange;
use vstd::utf8::{decode_utf8, encode_utf8, is_ascii_chars, is_ascii_chars_encode_utf8, valid_utf8};

verus! {

/// The most layers that `decode_base64` removes.
pub const MAX_LAYERS: usize = 5;

/// A text with fewer characters than this is never taken for a layer.
pub const MIN_ENCODED_LEN: usize = 20;

/// The error of `base64::decode`. It is only told apart from success; nothing
/// is read from it.
#[verifier::external_type_specification]
#[verifier::external_body]
pub struct ExDecodeError(base64::DecodeError);

/// What `base64::decode` makes of `input`: the decoded bytes, or `None` where
/// it returns an error.
pub uninterp spec fn base64_decoded(input: Seq<u8>) -> Option<Seq<u8>>;

/// Calls `base64::decode`, the decoder for the standard alphabet with
/// padding. The contract only gives its result the name `base64_decoded`:
/// the call has no other input than `input` and no state.
#[verifier::external_body]
#[allow(deprecated)]
fn base64_decode(input: &[u8]) -> (decoded: Result<Vec<u8>, base64::DecodeError>)
    ensures
        match decoded {
            Ok(bytes) => base64_decoded(input@) == Some(bytes@),
            Err(_) => base64_decoded(input@) is None,
        },
{
    base64::decode(input)
}

/// Calls `String::from_utf8`, which succeeds exactly on valid UTF-8 and then
/// yields the text that the bytes encode.
#[verifier::external_body]
fn string_from_utf8(bytes: Vec<u8>) -> (text: Option<String>)
    ensures
        text is Some <==> valid_utf8(bytes@),
        text is Some ==> text.unwrap()@ == decode_utf8(bytes@),
{
    String::from_utf8(bytes).ok()
}

/// The prefix of an entry, and a marker of plain text: `vless://`.
pub open spec fn vless_marker() -> Seq<char> {
    seq!['v', 'l', 'e', 's', 's', ':', '/', '/']
}

/// The other marker of plain text: `vmess://`.
pub open spec fn vmess_marker() -> Seq<char> {
    seq!['v', 'm', 'e', 's', 's', ':', '/', '/']
}

/// A character of the base64 alphabet, padding included.
pub open spec fn base64_char(c: char) -> bool {
    ||| 'A' <= c <= 'Z'
    ||| 'a' <= c <= 'z'
    ||| '0' <= c <= '9'
    ||| c == '+'
    ||| c == '/'
    ||| c == '='
}

/// Space, tab, line feed, form feed or carriage return.
pub open spec fn layer_space(c: char) -> bool {
    c == ' ' || c == '\t' || c == '\n' || c == '\x0C' || c == '\r'
}

/// A character that may occur in an encoded layer.
pub open spec fn layer_char(c: char) -> bool {
    base64_char(c) || layer_space(c)
}

/// The text begins with one of the markers of plain text.
pub open spec fn is_plaintext(text: Seq<char>) -> bool {
    vless_marker().is_prefix_of(text) || vmess_marker().is_prefix_of(text)
}

/// The text may be an encoded layer: it is long enough, does not begin with a
/// marker, and holds only characters of an encoded layer.
pub open spec fn looks_encoded(text: Seq<char>) -> bool {
    &&& text.len() >= MIN_ENCODED_LEN
    &&& !is_plaintext(text)
    &&& forall|i: int| 0 <= i < text.len() ==> layer_char(#[trigger] text[i])
}

/// The number of spaces that `text` begins with.
pub open spec fn leading_spaces(text: Seq<char>) -> nat
    decreases text.len(),
{
    if text.len() > 0 && layer_space(text[0]) {
        1 + leading_spaces(text.drop_first())
    } else {
        0
    }
}

/// The number of spaces that `text` ends with.
pub open spec fn trailing_spaces(text: Seq<char>) -> nat
    decreases text.len(),
{
    if text.len() > 0 && layer_space(text.last()) {
        1 + trailing_spaces(text.drop_last())
    } else {
        0
    }
}

/// The text without the spaces at its start and at its end.
pub open spec fn trimmed(text: Seq<char>) -> Seq<char> {
    let rest = text.skip(leading_spaces(text) as int);
    rest.take(rest.len() - trailing_spaces(rest))
}

/// The bytes handed to the base64 decoder for `text`, if it may be a layer.
pub open spec fn layer_input(text: Seq<char>) -> Option<Seq<u8>> {
    if looks_encoded(text) {
        Some(encode_utf8(trimmed(text)))
    } else {
        None
    }
}

/// The text that replaces `text` once a layer decoded to `decoded`: the bytes
/// read as UTF-8, unless they are no UTF-8 or give `text` back.
pub open spec fn layer_output(text: Seq<char>, decoded: Seq<u8>) -> Option<Seq<char>> {
    if valid_utf8(decoded) && decode_utf8(decoded) != text {
        Some(decode_utf8(decoded))
    } else {
        None
    }
}

/// One pass: the text under the outermost layer, or `None` where the pass
/// stops.
pub open spec fn unwrapped(text: Seq<char>) -> Option<Seq<char>> {
    match layer_input(text) {
        Some(input) => match base64_decoded(input) {
            Some(decoded) => layer_output(text, decoded),
            None => None,
        },
        None => None,
    }
}

/// The text after at most `passes` passes.
pub open spec fn normalized_within(text: Seq<char>, passes: nat) -> Seq<char>
    decreases passes,
{
    if passes == 0 {
        text
    } else {
        match unwrapped(text) {
            Some(inner) => normalized_within(inner, (passes - 1) as nat),
            None => text,
        }
    }
}

/// The text after at most `MAX_LAYERS` passes.
pub open spec fn normalized(text: Seq<char>) -> Seq<char> {
    normalized_within(text, MAX_LAYERS as nat)
}

/// Tells whether `c` belongs to the base64 alphabet, padding included.
pub fn is_base64_char(c: char) -> (yes: bool)
    ensures
        yes == base64_char(c),
{
    ('A' <= c && c <= 'Z') || ('a' <= c && c <= 'z') || ('0' <= c && c <= '9') || c == '+' || c
        == '/' || c == '='
}

/// Tells whether `c` is one of the five spaces of an encoded layer.
pub fn is_layer_space(c: char) -> (yes: bool)
    ensures
        yes == layer_space(c),
{
    c == ' ' || c == '\t' || c == '\n' || c == '\x0C' || c == '\r'
}

/// Tells whether every character of `text` may occur in an encoded layer.
pub fn all_layer_chars(text: &[char]) -> (yes: bool)
    ensures
        yes == forall|i: int| 0 <= i < text@.len() ==> layer_char(#[trigger] text@[i]),
{
    let mut i: usize = 0;
    while i < text.len()
        invariant
            i <= text.len(),
            forall|j: int| 0 <= j < i ==> layer_char(#[trigger] text@[j]),
        decreases text.len() - i,
    {
        if !(is_base64_char(text[i]) || is_layer_space(text[i])) {
            return false;
        }
        i += 1;
    }
    true
}

/// Tells whether `text` begins with `vless://` or `vmess://`.
pub fn starts_plain(text: &[char]) -> (yes: bool)
    ensures
        yes == is_plaintext(text@),
{
    let vless = ['v', 'l', 'e', 's', 's', ':', '/', '/'];
    let vmess = ['v', 'm', 'e', 's', 's', ':', '/', '/'];
    assert(vless@ =~= vless_marker());
    assert(vmess@ =~= vmess_marker());
    begins_with(text, vless.as_slice()) || begins_with(text, vmess.as_slice())
}

/// A text that begins with exactly `n` spaces has `n` leading spaces.
proof fn lemma_leading_spaces(text: Seq<char>, n: int)
    requires
        0 <= n <= text.len(),
        forall|j: int| 0 <= j < n ==> layer_space(text[j]),
        n < text.len() ==> !layer_space(text[n]),
    ensures
        leading_spaces(text) == n,
    decreases n,
{
    if n > 0 {
        let rest = text.drop_first();
        assert forall|j: int| 0 <= j < n - 1 implies layer_space(rest[j]) by {
            assert(rest[j] == text[j + 1]);
        }
        lemma_leading_spaces(rest, n - 1);
    }
}

/// A text that ends with exactly `n` spaces has `n` trailing spaces.
proof fn lemma_trailing_spaces(text: Seq<char>, n: int)
    requires
        0 <= n <= text.len(),
        forall|j: int| text.len() - n <= j < text.len() ==> layer_space(text[j]),
        n < text.len() ==> !layer_space(text[text.len() - n - 1]),
    ensures
        trailing_spaces(text) == n,
    decreases n,
{
    if n > 0 {
        let rest = text.drop_last();
        assert forall|j: int| rest.len() - (n - 1) <= j < rest.len() implies layer_space(
            rest[j],
        ) by {
            assert(rest[j] == text[j]);
        }
        lemma_trailing_spaces(rest, n - 1);
    }
}

/// The bounds of `text` without the spaces at its start and at its end.
pub fn trim_bounds(text: &[char]) -> (bounds: (usize, usize))
    ensures
        bounds.0 <= bounds.1 <= text@.len(),
        bounds.0 == leading_spaces(text@),
        bounds.1 == text@.len() - trailing_spaces(text@.skip(bounds.0 as int)),
        text@.subrange(bounds.0 as int, bounds.1 as int) == trimmed(text@),
{
    let mut start: usize = 0;
    while start < text.len() && is_layer_space(text[start])
        invariant
            start <= text.len(),
            forall|j: int| 0 <= j < start ==> layer_space(text@[j]),
        decreases text.len() - start,
    {
        start += 1;
    }
    let mut end: usize = text.len();
    while end > start && is_layer_space(text[end - 1])
        invariant
            start <= end <= text.len(),
            forall|j: int| end <= j < text@.len() ==> layer_space(text@[j]),
        decreases end,
    {
        end -= 1;
    }
    proof {
        lemma_leading_spaces(text@, start as int);
        let rest = text@.skip(start as int);
        assert forall|j: int| rest.len() - (text@.len() - end) <= j < rest.len() implies layer_space(
            rest[j],
        ) by {
            assert(rest[j] == text@[j + start]);
        }
        lemma_trailing_spaces(rest, text@.len() - end);
        assert(text@.subrange(start as int, end as int) =~= rest.take(
            rest.len() - trailing_spaces(rest),
        ));
    }
    (start, end)
}

/// The bytes of a text whose characters are all ASCII.
pub fn ascii_bytes(text: &[char]) -> (bytes: Vec<u8>)
    requires
        is_ascii_chars(text@),
    ensures
        bytes@ == encode_utf8(text@),
{
    let mut bytes: Vec<u8> = Vec::new();
    let mut i: usize = 0;
    while i < text.len()
        invariant
            i <= text.len(),
            is_ascii_chars(text@),
            bytes@.len() == i,
            forall|j: int| 0 <= j < i ==> bytes@[j] == text@[j] as u8,
        decreases text.len() - i,
    {
        let c = text[i];
        assert('\0' <= text@[i as int] <= '\u{7f}');
        bytes.push(c as u8);
        i += 1;
    }
    proof {
        is_ascii_chars_encode_utf8(text@);
        assert(bytes@ =~= encode_utf8(text@));
    }
    bytes
}

/// The bytes to hand to the base64 decoder for `text`, or `None` where `text`
/// is plain, too short, or holds a character that no layer holds.
pub fn layer_candidate(text: &[char]) -> (input: Option<Vec<u8>>)
    ensures
        match input {
            Some(bytes) => layer_input(text@) == Some(bytes@),
            None => layer_input(text@) is None,
        },
{
    if text.len() < MIN_ENCODED_LEN || starts_plain(text) || !all_layer_chars(text) {
        return None;
    }
    let (start, end) = trim_bounds(text);
    let inner = slice_subrange(text, start, end);
    assert(is_ascii_chars(inner@)) by {
        assert forall|i: int| 0 <= i < inner@.len() implies '\0' <= #[trigger] inner@[i]
            <= '\u{7f}' by {
            assert(layer_char(text@[start + i]));
        }
    }
    Some(ascii_bytes(inner))
}

/// The text that takes the place of `text` once a layer decoded to `decoded`,
/// or `None` where the bytes are no UTF-8 or give `text` back.
pub fn accept_layer(text: &[char], decoded: Vec<u8>) -> (inner: Option<String>)
    ensures
        match inner {
            Some(s) => layer_output(text@, decoded@) == Some(s@),
            None => layer_output(text@, decoded@) is None,
        },
{
    match string_from_utf8(decoded) {
        Some(s) => {
            let chars = chars_of(s.as_str());
            if chars.len() == text.len() && matches_at(text, chars.as_slice(), 0) {
                assert(text@.subrange(0, text@.len() as int) =~= text@);
                None
            } else {
                assert(s@ != text@) by {
                    if s@ == text@ {
                        assert(text@.subrange(0, text@.len() as int) =~= text@);
                    }
                }
                Some(s)
            }
        },
        None => None,
    }
}

/// One pass over `text`: the text under its outermost layer, or `None` where
/// there is no layer to remove.
pub fn unwrap_layer(text: &str) -> (inner: Option<String>)
    ensures
        match inner {
            Some(s) => unwrapped(text@) == Some(s@),
            None => unwrapped(text@) is None,
        },
{
    let chars = chars_of(text);
    match layer_candidate(chars.as_slice()) {
        Some(input) => match base64_decode(input.as_slice()) {
            Ok(decoded) => accept_layer(chars.as_slice(), decoded),
            Err(_) => None,
        },
        None => None,
    }
}

/// The text of a body with up to `MAX_LAYERS` base64 layers removed.
pub fn decode_base64(input: &str) -> (result: String)
    ensures
        result@ == normalized(input@),
{
    let mut result: String = input.to_owned();
    let mut passes: usize = 0;
    while passes < MAX_LAYERS
        invariant
            passes <= MAX_LAYERS,
            normalized(input@) == normalized_within(result@, (MAX_LAYERS - passes) as nat),
        decreases MAX_LAYERS - passes,
    {
        match unwrap_layer(result.as_str()) {
            Some(inner) => {
                result = inner;
            },
            None => {
                return result;
            },
        }
        passes += 1;
    }
    result
}

/// The text under exactly `passes` layers, or `None` where `text` has fewer.
pub open spec fn peeled(text: Seq<char>, passes: nat) -> Option<Seq<char>>
    decreases passes,
{
    if passes == 0 {
        Some(text)
    } else {
        match unwrapped(text) {
            Some(inner) => peeled(inner, (passes - 1) as nat),
            None => None,
        }
    }
}

/// The number of layers that are removed from `text` when at most `limit`
/// passes are allowed.
pub open spec fn passes_made(text: Seq<char>, limit: nat) -> nat
    decreases limit,
{
    if limit == 0 {
        0
    } else {
        match unwrapped(text) {
            Some(inner) => 1 + passes_made(inner, (limit - 1) as nat),
            None => 0,
        }
    }
}

/// Normalizing never makes more passes than are allowed: what it gives is
/// the text under that many layers, and where it made fewer passes than
/// allowed it stopped at a text that has no layer left.
pub proof fn lemma_passes_bounded(text: Seq<char>, limit: nat)
    ensures
        passes_made(text, limit) <= limit,
        peeled(text, passes_made(text, limit)) == Some(normalized_within(text, limit)),
        passes_made(text, limit) < limit ==> unwrapped(normalized_within(text, limit)) is None,
    decreases limit,
{
    if limit > 0 {
        match unwrapped(text) {
            Some(inner) => lemma_passes_bounded(inner, (limit - 1) as nat),
            None => {},
        }
    }
}

/// A pass that stops leaves the text as it is, however many passes are allowed.
pub proof fn lemma_settled_is_fixed(text: Seq<char>, passes: nat)
    requires
        unwrapped(text) is None,
    ensures
        normalized_within(text, passes) == text,
{
}

/// A text that begins with a marker of plain text is returned unchanged.
pub proof fn lemma_plaintext_is_fixed(text: Seq<char>)
    requires
        is_plaintext(text),
    ensures
        normalized(text) == text,
{
}

/// Normalizing twice gives what normalizing once gives, for every text whose
/// layers `MAX_LAYERS` passes remove: one on which a further pass stops.
pub proof fn lemma_normalized_idempotent(text: Seq<char>)
    requires
        unwrapped(normalized(text)) is None,
    ensures
        normalized(normalized(text)) == normalized(text),
{
    lemma_settled_is_fixed(normalized(text), MAX_LAYERS as nat);
}

/// A text with fewer than `MAX_LAYERS` layers is such a text.
pub proof fn lemma_shallow_is_idempotent(text: Seq<char>)
    requires
        passes_made(text, MAX_LAYERS as nat) < MAX_LAYERS,
    ensures
        normalized(normalized(text)) == normalized(text),
{
    lemma_passes_bounded(text, MAX_LAYERS as nat);
    lemma_normalized_idempotent(text);
}

} // verus!
