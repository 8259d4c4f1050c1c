//! The pattern matcher: a chunk's bytes are read as text, one character per
//! byte, the compiled pattern is run over that text, and the matches come
//! back as intervals of offsets into the chunk.

use crate::error::ConfigError;
use crate::text::collect_text;
use regex::Regex;
use vstd::prelude::*;
use vstd::string::*;

verus! {

/// A compiled pattern of the `regex` crate. Its inside is not visible to the
/// verifier.
#[verifier::external_type_specification]
#[verifier::external_body]
pub struct ExRegex(Regex);

/// The reason why the `regex` crate refused a pattern. Its inside is not
/// visible to the verifier.
#[verifier::external_type_specification]
#[verifier::external_body]
pub struct ExRegexError(regex::Error);

/// The matches that `Regex::find_iter` yields for `re` in `text`, in the
/// order in which it yields them, each as the pair of `Match::start` and
/// `Match::end`: offsets into the UTF-8 encoding of `text`.
pub uninterp spec fn text_spans(re: Regex, text: Seq<char>) -> Seq<(usize, usize)>;

/// What `regex::Error` shows of itself through `Display`.
pub uninterp spec fn pattern_error_text(error: regex::Error) -> Seq<char>;

/// The text that a compiled pattern was made from: what `Regex::as_str`
/// returns.
pub uninterp spec fn pattern_source(re: Regex) -> Seq<char>;

/// What `Regex::new` makes of the pattern text: nothing where it accepts
/// the text, and where it refuses it, the text of the reason it gives. It
/// refuses a text whose syntax is not valid or whose compiled form is
/// larger than the size limit that the crate sets by default. The crate
/// measures that size in the layout of the target it is built for; within
/// a build the answer depends on the text alone.
pub uninterp spec fn pattern_refusal(pattern: Seq<char>) -> Option<Seq<char>>;

/// Whether the pattern compiler accepts the pattern text.
pub open spec fn pattern_accepted(pattern: Seq<char>) -> bool {
    pattern_refusal(pattern) is None
}

/// Calls `Regex::new`. It succeeds on the patterns that the crate accepts
/// and on no others, and the reason of a refusal reads as
/// `pattern_refusal` names it. A pattern that it accepts comes back
/// compiled from the very text given: the crate keeps that text in the
/// compiled pattern, and `Regex::as_str` returns it.
#[verifier::external_body]
fn compile(pattern: &str) -> (compiled: Result<Regex, regex::Error>)
    ensures
        compiled is Ok <==> pattern_accepted(pattern@),
        compiled matches Ok(re) ==> pattern_source(re) == pattern@,
        compiled matches Err(reason) ==> pattern_refusal(pattern@) == Some(
            pattern_error_text(reason),
        ),
{
    Regex::new(pattern)
}

/// Calls `Regex::find_iter` and collects the start and end of every match
/// it yields: the result is `text_spans` of the pattern and the text. The
/// iterator yields successive matches that do not overlap, and no match
/// ends before it starts.
#[verifier::external_body]
fn find_text_spans(re: &Regex, text: &str) -> (spans: Vec<(usize, usize)>)
    ensures
        spans@ == text_spans(*re, text@),
        successive(spans@),
{
    re.find_iter(text).map(|m| (m.start(), m.end())).collect()
}

/// Calls `to_string` on a `regex::Error`: the result is
/// `pattern_error_text` of the error.
#[verifier::external_body]
pub(crate) fn error_text(error: &regex::Error) -> (text: String)
    ensures
        text@ == pattern_error_text(*error),
{
    error.to_string()
}

/// The spans are intervals that follow one another without overlap: none
/// ends before it starts, and each starts no earlier than the one before
/// it ends.
pub open spec fn successive(spans: Seq<(usize, usize)>) -> bool {
    &&& forall|k: int| 0 <= k < spans.len() ==> (#[trigger] spans[k]).0 <= spans[k].1
    &&& forall|k: int| 0 <= k < spans.len() - 1 ==> (#[trigger] spans[k]).1 <= spans[k + 1].0
}

/// Every span lies within the first `len` offsets.
pub open spec fn within(spans: Seq<(usize, usize)>, len: nat) -> bool {
    forall|k: int| 0 <= k < spans.len() ==> (#[trigger] spans[k]).0 <= len && spans[k].1 <= len
}

/// The text of a chunk: for each byte the character whose code point is
/// the byte's value.
pub open spec fn byte_text(bytes: Seq<u8>) -> Seq<char> {
    Seq::new(bytes.len(), |i: int| bytes[i] as char)
}

/// How many bytes the UTF-8 encoding spends on the character of byte `b`.
pub open spec fn encoded_width(b: u8) -> nat {
    if b < 0x80 {
        1
    } else {
        2
    }
}

/// The offset, in the encoded text of `bytes`, at which the character of
/// the byte at `index` starts; for `index == bytes.len()`, the length of the
/// encoded text.
pub open spec fn text_offset(bytes: Seq<u8>, index: int) -> nat
    recommends
        0 <= index <= bytes.len(),
    decreases index,
{
    if index <= 0 {
        0
    } else {
        text_offset(bytes, index - 1) + encoded_width(bytes[index - 1])
    }
}

/// The first index at or after `from` whose character starts at or after
/// `offset` in the encoded text, or the chunk's length if there is none.
pub open spec fn chunk_index_from(bytes: Seq<u8>, offset: nat, from: nat) -> nat
    decreases bytes.len() - from,
{
    if from >= bytes.len() {
        bytes.len()
    } else if text_offset(bytes, from as int) >= offset {
        from
    } else {
        chunk_index_from(bytes, offset, from + 1)
    }
}

/// The index in the chunk that an offset into the encoded text stands for:
/// the first byte whose character starts at or after `offset`.
pub open spec fn chunk_index(bytes: Seq<u8>, offset: nat) -> nat {
    chunk_index_from(bytes, offset, 0)
}

/// Intervals of the encoded text, as intervals of the chunk.
pub open spec fn byte_spans(bytes: Seq<u8>, spans: Seq<(usize, usize)>) -> Seq<(usize, usize)> {
    Seq::new(
        spans.len(),
        |k: int|
            (
                chunk_index(bytes, spans[k].0 as nat) as usize,
                chunk_index(bytes, spans[k].1 as nat) as usize,
            ),
    )
}

/// What a search for `re` in a chunk returns.
pub open spec fn search_spans(re: Regex, bytes: Seq<u8>) -> Seq<(usize, usize)> {
    byte_spans(bytes, text_spans(re, byte_text(bytes)))
}

/// Characters start at strictly growing offsets.
pub proof fn lemma_text_offset_grows(bytes: Seq<u8>, i: int, j: int)
    requires
        0 <= i < j,
    ensures
        text_offset(bytes, i) < text_offset(bytes, j),
    decreases j,
{
    if i < j - 1 {
        lemma_text_offset_grows(bytes, i, j - 1);
    }
}

/// A character takes one or two bytes, so the character at `index` starts
/// between `index` and twice `index`.
pub proof fn lemma_text_offset_bounds(bytes: Seq<u8>, index: int)
    requires
        0 <= index,
    ensures
        index <= text_offset(bytes, index) <= 2 * index,
    decreases index,
{
    if index > 0 {
        lemma_text_offset_bounds(bytes, index - 1);
    }
}

/// The search for an offset may start at any index before which every
/// character starts before the offset.
pub proof fn lemma_chunk_index_skip(bytes: Seq<u8>, offset: nat, from: nat)
    requires
        from <= bytes.len(),
        forall|j: int| 0 <= j < from ==> text_offset(bytes, j) < offset,
    ensures
        chunk_index(bytes, offset) == chunk_index_from(bytes, offset, from),
    decreases from,
{
    if from > 0 {
        lemma_chunk_index_skip(bytes, offset, (from - 1) as nat);
    }
}

/// What `chunk_index` finds: an index within the chunk, before which every
/// character starts before the offset, and at which, unless it is the
/// chunk's end, a character starts at or after the offset.
pub proof fn lemma_chunk_index_is_first(bytes: Seq<u8>, offset: nat, from: nat)
    requires
        from <= bytes.len(),
    ensures
        from <= chunk_index_from(bytes, offset, from) <= bytes.len(),
        forall|j: int|
            from <= j < chunk_index_from(bytes, offset, from) ==> text_offset(bytes, j) < offset,
        chunk_index_from(bytes, offset, from) < bytes.len() ==> text_offset(
            bytes,
            chunk_index_from(bytes, offset, from) as int,
        ) >= offset,
    decreases bytes.len() - from,
{
    if from < bytes.len() && text_offset(bytes, from as int) < offset {
        lemma_chunk_index_is_first(bytes, offset, from + 1);
    }
}

/// A later offset into the text stands for no earlier index in the chunk.
pub proof fn lemma_chunk_index_order(bytes: Seq<u8>, first: nat, second: nat)
    requires
        first <= second,
    ensures
        chunk_index(bytes, first) <= chunk_index(bytes, second) <= bytes.len(),
{
    lemma_chunk_index_is_first(bytes, first, 0);
    lemma_chunk_index_is_first(bytes, second, 0);
}

/// Intervals of the text become intervals within the chunk, and intervals
/// that follow one another without overlap stay so.
pub proof fn lemma_byte_spans_successive(bytes: Seq<u8>, spans: Seq<(usize, usize)>)
    requires
        bytes.len() <= usize::MAX,
    ensures
        within(byte_spans(bytes, spans), bytes.len()),
        successive(spans) ==> successive(byte_spans(bytes, spans)),
{
    let mapped = byte_spans(bytes, spans);
    assert forall|k: int| 0 <= k < mapped.len() implies (#[trigger] mapped[k]).0 <= bytes.len()
        && mapped[k].1 <= bytes.len() by {
        lemma_chunk_index_order(bytes, spans[k].0 as nat, spans[k].0 as nat);
        lemma_chunk_index_order(bytes, spans[k].1 as nat, spans[k].1 as nat);
    }
    if successive(spans) {
        assert forall|k: int| 0 <= k < mapped.len() implies (#[trigger] mapped[k]).0
            <= mapped[k].1 by {
            lemma_chunk_index_order(bytes, spans[k].0 as nat, spans[k].1 as nat);
        }
        assert forall|k: int| 0 <= k < mapped.len() - 1 implies (#[trigger] mapped[k]).1
            <= mapped[k + 1].0 by {
            lemma_chunk_index_order(bytes, spans[k].1 as nat, spans[k + 1].0 as nat);
            lemma_chunk_index_order(bytes, spans[k + 1].0 as nat, spans[k + 1].0 as nat);
        }
    }
}

/// An offset at which a character starts, or the end of the text, stands
/// for that character's byte: on such offsets `chunk_index` undoes
/// `text_offset`.
pub proof fn lemma_chunk_index_of_boundary(bytes: Seq<u8>, index: int)
    requires
        0 <= index <= bytes.len(),
    ensures
        chunk_index(bytes, text_offset(bytes, index)) == index,
{
    let offset = text_offset(bytes, index);
    assert forall|j: int| 0 <= j < index implies text_offset(bytes, j) < offset by {
        lemma_text_offset_grows(bytes, j, index);
    }
    lemma_chunk_index_skip(bytes, offset, index as nat);
}

/// In a chunk of bytes below 0x80 every character takes one byte, so an
/// offset into the text within the chunk stands for itself.
pub proof fn lemma_chunk_index_ascii(bytes: Seq<u8>, offset: nat)
    requires
        forall|i: int| 0 <= i < bytes.len() ==> bytes[i] < 0x80,
        offset <= bytes.len(),
    ensures
        chunk_index(bytes, offset) == offset,
{
    lemma_text_offset_ascii(bytes, offset as int);
    lemma_chunk_index_of_boundary(bytes, offset as int);
}

/// In a chunk of bytes below 0x80 the character at `index` starts at offset
/// `index`.
pub proof fn lemma_text_offset_ascii(bytes: Seq<u8>, index: int)
    requires
        forall|i: int| 0 <= i < bytes.len() ==> bytes[i] < 0x80,
        0 <= index <= bytes.len(),
    ensures
        text_offset(bytes, index) == index,
    decreases index,
{
    if index > 0 {
        lemma_text_offset_ascii(bytes, index - 1);
    }
}

/// The characters of a chunk, one for each byte.
pub fn pair_ascii(binary: &Vec<u8>) -> (chars: Vec<char>)
    ensures
        chars@ == byte_text(binary@),
{
    let mut chars: Vec<char> = Vec::new();
    let mut i: usize = 0;
    while i < binary.len()
        invariant
            i <= binary.len(),
            chars@ == byte_text(binary@.take(i as int)),
        decreases binary.len() - i,
    {
        chars.push(binary[i] as char);
        i += 1;
        assert(chars@ =~= byte_text(binary@.take(i as int)));
    }
    assert(binary@.take(i as int) =~= binary@);
    chars
}

/// Turns what the pattern compiler returned into the library's own result:
/// the compiled pattern as it is, a refusal as `InvalidPattern` with the
/// compiler's reason.
pub fn checked_pattern(compiled: Result<Regex, regex::Error>) -> (checked: Result<
    Regex,
    ConfigError,
>)
    ensures
        match compiled {
            Ok(re) => checked == Ok::<Regex, ConfigError>(re),
            Err(reason) => checked == Err::<Regex, ConfigError>(
                ConfigError::InvalidPattern(reason),
            ),
        },
{
    match compiled {
        Ok(re) => Ok(re),
        Err(reason) => Err(ConfigError::InvalidPattern(reason)),
    }
}

/// Compiles a pattern. It succeeds exactly on the patterns that the pattern
/// compiler accepts. What it accepts comes back as the compiled form of the
/// very text given. A refusal comes back as `InvalidPattern`, never as
/// another error, and its message is the compiler's reason for refusing
/// this text.
pub fn compile_pattern(pattern: &str) -> (compiled: Result<Regex, ConfigError>)
    ensures
        compiled is Ok <==> pattern_accepted(pattern@),
        compiled matches Ok(re) ==> pattern_source(re) == pattern@,
        compiled matches Err(error) ==> error is InvalidPattern && pattern_refusal(pattern@)
            == Some(error.message_text()),
{
    checked_pattern(compile(pattern))
}

/// Walks forward from a known place in the chunk to the index that `target`
/// stands for. Returns the index and the text offset at which its character
/// starts.
fn seek_offset(binary: &Vec<u8>, target: usize, index: usize, offset: u128) -> (found: (
    usize,
    u128,
))
    requires
        index <= binary.len(),
        offset == text_offset(binary@, index as int),
        forall|j: int| 0 <= j < index ==> text_offset(binary@, j) < target,
    ensures
        found.0 <= binary.len(),
        found.0 == chunk_index(binary@, target as nat),
        found.1 == text_offset(binary@, found.0 as int),
{
    let mut i: usize = index;
    let mut reached: u128 = offset;
    while i < binary.len() && reached < target as u128
        invariant
            i <= binary.len(),
            reached == text_offset(binary@, i as int),
            forall|j: int| 0 <= j < i ==> text_offset(binary@, j) < target,
        decreases binary.len() - i,
    {
        proof {
            lemma_text_offset_bounds(binary@, i as int);
        }
        let width: u128 = if binary[i] < 0x80 {
            1
        } else {
            2
        };
        reached = reached + width;
        i += 1;
    }
    proof {
        lemma_chunk_index_skip(binary@, target as nat, i as nat);
    }
    (i, reached)
}

/// The index that `target` stands for, found from the place where the last
/// search ended when that place is not yet past it, else from the chunk's
/// start.
fn locate(binary: &Vec<u8>, target: usize, index: usize, offset: u128) -> (found: (usize, u128))
    requires
        index <= binary.len(),
        offset == text_offset(binary@, index as int),
    ensures
        found.0 <= binary.len(),
        found.0 == chunk_index(binary@, target as nat),
        found.1 == text_offset(binary@, found.0 as int),
{
    if index == 0 {
        return seek_offset(binary, target, 0, 0);
    }
    let width: u128 = if binary[index - 1] < 0x80 {
        1
    } else {
        2
    };
    if offset - width < target as u128 {
        proof {
            assert forall|j: int| 0 <= j < index implies text_offset(binary@, j) < target by {
                if j < index - 1 {
                    lemma_text_offset_grows(binary@, j, index - 1);
                }
            }
        }
        seek_offset(binary, target, index, offset)
    } else {
        seek_offset(binary, target, 0, 0)
    }
}

/// Turns intervals of the encoded text into intervals of the chunk: each
/// end of each interval becomes the index of the first byte whose character
/// starts at or after it.
pub fn chunk_spans(binary: &Vec<u8>, spans: &Vec<(usize, usize)>) -> (mapped: Vec<(usize, usize)>)
    ensures
        mapped@ == byte_spans(binary@, spans@),
        within(mapped@, binary@.len()),
        successive(spans@) ==> successive(mapped@),
{
    let mut mapped: Vec<(usize, usize)> = Vec::new();
    let mut index: usize = 0;
    let mut offset: u128 = 0;
    let mut k: usize = 0;
    while k < spans.len()
        invariant
            k <= spans.len(),
            index <= binary.len(),
            offset == text_offset(binary@, index as int),
            mapped@ == byte_spans(binary@, spans@.take(k as int)),
        decreases spans.len() - k,
    {
        let span = spans[k];
        let start = locate(binary, span.0, index, offset);
        let end = locate(binary, span.1, start.0, start.1);
        index = end.0;
        offset = end.1;
        mapped.push((start.0, end.0));
        k += 1;
        assert(mapped@ =~= byte_spans(binary@, spans@.take(k as int)));
    }
    assert(spans@.take(k as int) =~= spans@);
    proof {
        lemma_byte_spans_successive(binary@, spans@);
    }
    mapped
}

/// Finds every match of `re` in a chunk. The matches are those that the
/// pattern has in the chunk's text, in the order in which the search yields
/// them; each is a half-open interval of offsets into `binary`, and they
/// follow one another without overlap.
pub fn regex_search(binary: &Vec<u8>, re: &Regex) -> (spans: Vec<(usize, usize)>)
    ensures
        spans@ == search_spans(*re, binary@),
        within(spans@, binary@.len()),
        successive(spans@),
{
    let chars = pair_ascii(binary);
    let text = collect_text(&chars);
    let found = find_text_spans(re, text.as_str());
    chunk_spans(binary, &found)
}

} // verus!
