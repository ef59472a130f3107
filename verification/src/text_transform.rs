//! Case mapping for the CSS `text-transform` property.
//!
//! <https://drafts.csswg.org/css-text/#text-transform-property>
use icu_casemap::options::{LeadingAdjustment, TitlecaseOptions, TrailingCase};
use icu_casemap::{CaseMapper, TitlecaseMapper};
use icu_locale_core::LanguageIdentifier;
use icu_properties::props::{GeneralCategory, GeneralCategoryGroup};
use icu_properties::CodePointMapData;
use icu_segmenter::options::WordBreakInvariantOptions;
use icu_segmenter::WordSegmenter;
use vstd::prelude::*;
use vstd::string::*;
use vstd::utf8::*;

use crate::utf8_text::{
    byte_len, byte_slice, bytes_of, concat_str, lemma_boundary_at_join, lemma_boundary_char,
    lemma_view_is_decoded, text_between,
};

verus! {

broadcast use vstd::utf8::group_utf8_lib;

/// The maximum number of bytes of preceding text kept as context for finding word boundaries.
pub const MAX_CONTEXT_LEN: usize = 32;

/// The case transforms of `text-transform`.
#[derive(Clone, Copy, Debug, PartialEq, Eq)]
pub enum TextTransform {
    Unchanged,
    Uppercase,
    Lowercase,
    Capitalize,
}

/// The case transform (and language, as a BCP 47 tag) that applies to an element's text.
#[derive(Clone, Debug)]
pub struct CaseTransform {
    pub kind: TextTransform,
    pub lang: String,
}

impl CaseTransform {
    /// No transform, in the root language (`und`).
    pub fn none() -> (r: Self)
        ensures
            r.kind == TextTransform::Unchanged,
            r.lang@ == "und"@,
    {
        CaseTransform { kind: TextTransform::Unchanged, lang: String::from_str("und") }
    }

    /// A transform of the given kind for text in the language `lang`.
    pub fn new(kind: TextTransform, lang: &str) -> (r: Self)
        ensures
            r.kind == kind,
            r.lang@ == lang@,
    {
        CaseTransform { kind, lang: String::from_str(lang) }
    }
}

/// What ICU's full uppercase mapping gives for `text` in language `lang`.
pub uninterp spec fn uppercase_of(text: Seq<char>, lang: Seq<char>) -> Seq<char>;

/// What ICU's full lowercase mapping gives for `text` in language `lang`.
pub uninterp spec fn lowercase_of(text: Seq<char>, lang: Seq<char>) -> Seq<char>;

/// What ICU's titlecasing of a single segment gives for `text` in language `lang`,
/// with no leading adjustment and the trailing text left unchanged.
pub uninterp spec fn titlecase_segment_of(text: Seq<char>, lang: Seq<char>) -> Seq<char>;

/// The word break positions (byte offsets) that ICU's word segmenter finds in `text`.
pub uninterp spec fn word_breaks_of(text: Seq<char>) -> Seq<usize>;

/// Whether the general category of `c` belongs to the Letter group.
pub uninterp spec fn is_letter_category(c: char) -> bool;

/// Whether the general category of `c` belongs to the Number group.
pub uninterp spec fn is_number_category(c: char) -> bool;

/// Calls `CaseMapperBorrowed::uppercase_to_string` with the language parsed from `lang`
/// (the root language where the tag does not parse). Trusted: the result is the one
/// that `uppercase_of` names for these arguments.
#[verifier::external_body]
fn uppercase_to_string(text: &str, lang: &str) -> (r: String)
    ensures
        r@ == uppercase_of(text@, lang@),
{
    let lang = LanguageIdentifier::try_from_str(lang).unwrap_or(LanguageIdentifier::UNKNOWN);
    CaseMapper::new().uppercase_to_string(text, &lang).into_owned()
}

/// Calls `CaseMapperBorrowed::lowercase_to_string` with the language parsed from `lang`
/// (the root language where the tag does not parse). Trusted: the result is the one
/// that `lowercase_of` names for these arguments.
#[verifier::external_body]
fn lowercase_to_string(text: &str, lang: &str) -> (r: String)
    ensures
        r@ == lowercase_of(text@, lang@),
{
    let lang = LanguageIdentifier::try_from_str(lang).unwrap_or(LanguageIdentifier::UNKNOWN);
    CaseMapper::new().lowercase_to_string(text, &lang).into_owned()
}

/// Calls `TitlecaseMapperBorrowed::titlecase_segment_to_string` (no leading adjustment,
/// trailing case unchanged) with the language parsed from `lang`. Trusted: the result
/// is the one that `titlecase_segment_of` names for these arguments.
#[verifier::external_body]
fn titlecase_segment_to_string(text: &str, lang: &str) -> (r: String)
    ensures
        r@ == titlecase_segment_of(text@, lang@),
{
    let lang = LanguageIdentifier::try_from_str(lang).unwrap_or(LanguageIdentifier::UNKNOWN);
    let mut options = TitlecaseOptions::default();
    options.leading_adjustment = Some(LeadingAdjustment::None);
    options.trailing_case = Some(TrailingCase::Unchanged);
    TitlecaseMapper::new().titlecase_segment_to_string(text, &lang, options).into_owned()
}

/// Collects the breakpoints of `WordSegmenterBorrowed::segment_str` (the segmenter for
/// non-complex scripts). Trusted: the result is the one that `word_breaks_of` names, and,
/// as the crate documents, it starts with a break at 0 and ends with one at the text's
/// length in bytes (only 0 for empty text). Nothing more is claimed of the positions
/// between.
#[verifier::external_body]
fn segment_words(text: &str) -> (r: Vec<usize>)
    ensures
        r@ == word_breaks_of(text@),
        r@.len() > 0,
        r@[0] == 0,
        text.spec_bytes().len() == 0 ==> r@.len() == 1,
        text.spec_bytes().len() > 0 ==> r@.len() >= 2 && r@.last() == text.spec_bytes().len(),
{
    WordSegmenter::new_for_non_complex_scripts(WordBreakInvariantOptions::default())
        .segment_str(text)
        .collect()
}

/// Looks up the general category of `c` with `CodePointMapDataBorrowed::get` and tests
/// it with `GeneralCategoryGroup::Letter.contains`. Trusted: the answer is `is_letter_category(c)`.
#[verifier::external_body]
fn is_letter(c: char) -> (r: bool)
    ensures
        r == is_letter_category(c),
{
    GeneralCategoryGroup::Letter.contains(CodePointMapData::<GeneralCategory>::new().get(c))
}

/// Looks up the general category of `c` with `CodePointMapDataBorrowed::get` and tests
/// it with `GeneralCategoryGroup::Number.contains`. Trusted: the answer is `is_number_category(c)`.
#[verifier::external_body]
fn is_number(c: char) -> (r: bool)
    ensures
        r == is_number_category(c),
{
    GeneralCategoryGroup::Number.contains(CodePointMapData::<GeneralCategory>::new().get(c))
}

/// <https://drafts.csswg.org/css-text/#typographic-letter-unit>
pub open spec fn is_letter_unit(c: char) -> bool {
    is_letter_category(c) || is_number_category(c)
}

/// Whether `c` is a typographic letter unit (a letter or a number).
pub fn is_typographic_letter_unit(c: char) -> (r: bool)
    ensures
        r == is_letter_unit(c),
{
    is_letter(c) || is_number(c)
}

/// The smallest character boundary of `bytes` at or after `index` (the end, at the latest).
pub open spec fn ceil_boundary(bytes: Seq<u8>, index: int) -> int
    decreases bytes.len() - index,
{
    if index >= bytes.len() || is_char_boundary(bytes, index) {
        index
    } else {
        ceil_boundary(bytes, index + 1)
    }
}

proof fn lemma_ceil_boundary(bytes: Seq<u8>, index: int)
    requires
        valid_utf8(bytes),
        0 <= index <= bytes.len(),
    ensures
        index <= ceil_boundary(bytes, index) <= bytes.len(),
        is_char_boundary(bytes, ceil_boundary(bytes, index)),
        forall|j: int| index <= j < ceil_boundary(bytes, index) ==> !is_char_boundary(bytes, j),
    decreases bytes.len() - index,
{
    is_char_boundary_start_end_of_seq(bytes);
    if index < bytes.len() && !is_char_boundary(bytes, index) {
        lemma_ceil_boundary(bytes, index + 1);
    }
}

/// The smallest character boundary of `s` at or after byte offset `index`.
pub fn ceil_char_boundary(s: &str, index: usize) -> (r: usize)
    requires
        index <= s.spec_bytes().len(),
    ensures
        r == ceil_boundary(s.spec_bytes(), index as int),
        index <= r <= s.spec_bytes().len(),
        is_char_boundary(s.spec_bytes(), r as int),
{
    proof {
        lemma_view_is_decoded(s);
        lemma_ceil_boundary(s.spec_bytes(), index as int);
    }
    let ghost bytes = s.spec_bytes();
    let _len = byte_len(s);
    let mut i = index;
    while !s.is_char_boundary(i)
        invariant
            bytes == s.spec_bytes(),
            valid_utf8(bytes),
            index <= i <= bytes.len(),
            ceil_boundary(bytes, i as int) == ceil_boundary(bytes, index as int),
            is_char_boundary(bytes, bytes.len() as int),
            bytes.len() <= usize::MAX,
        decreases bytes.len() - i,
    {
        i = i + 1;
    }
    i
}

/// The context kept after `text` follows the context `ctx`: at most `MAX_CONTEXT_LEN`
/// bytes from the end of `ctx + text`, cut at a character boundary.
pub open spec fn pushed_context(ctx: Seq<u8>, text: Seq<u8>) -> Seq<u8> {
    if text.len() >= MAX_CONTEXT_LEN {
        text.subrange(ceil_boundary(text, text.len() - MAX_CONTEXT_LEN), text.len() as int)
    } else {
        let joined = ctx + text;
        if joined.len() > MAX_CONTEXT_LEN {
            joined.subrange(
                ceil_boundary(joined, joined.len() - MAX_CONTEXT_LEN),
                joined.len() as int,
            )
        } else {
            joined
        }
    }
}

/// Whether `breaks` can be used to cut `bytes` into segments: every breakpoint after the
/// first is a character boundary and no segment ends before it starts.
pub open spec fn breaks_usable(bytes: Seq<u8>, breaks: Seq<usize>) -> bool {
    &&& forall|j: int| 1 <= j < breaks.len() ==> is_char_boundary(bytes, #[trigger] breaks[j] as int)
    &&& forall|j: int| 1 <= j < breaks.len() ==> segment_start(breaks, j) <= #[trigger] breaks[j]
}

/// The start of the segment that ends at `breaks[j]` (the first starts at 0).
pub open spec fn segment_start(breaks: Seq<usize>, j: int) -> int {
    if j <= 1 {
        0
    } else {
        breaks[j - 1] as int
    }
}

/// The number of characters before the first letter unit of `s` (its length if none).
pub open spec fn letter_prefix_len(s: Seq<char>) -> nat
    decreases s.len(),
{
    if s.len() == 0 || is_letter_unit(s[0]) {
        0
    } else {
        1 + letter_prefix_len(s.drop_first())
    }
}

proof fn lemma_letter_prefix_len(s: Seq<char>)
    ensures
        letter_prefix_len(s) <= s.len(),
        forall|i: int| 0 <= i < letter_prefix_len(s) ==> !is_letter_unit(#[trigger] s[i]),
        letter_prefix_len(s) < s.len() ==> is_letter_unit(s[letter_prefix_len(s) as int]),
    decreases s.len(),
{
    if s.len() > 0 && !is_letter_unit(s[0]) {
        lemma_letter_prefix_len(s.drop_first());
        assert forall|i: int| 0 <= i < letter_prefix_len(s) implies !is_letter_unit(
            #[trigger] s[i],
        ) by {
            if i > 0 {
                assert(s[i] == s.drop_first()[i - 1]);
            }
        }
    }
}

/// Whether `s` holds a letter unit.
pub open spec fn has_letter_unit(s: Seq<char>) -> bool {
    exists|i: int| 0 <= i < s.len() && is_letter_unit(#[trigger] s[i])
}

/// What capitalization contributes for the segment `start..end` of `bytes`, whose first
/// `ctx_len` bytes are context that was already output: the part after the context, with
/// its first letter unit titlecased unless the word's first letter unit lies in the context.
pub open spec fn segment_output(
    bytes: Seq<u8>,
    ctx_len: int,
    start: int,
    end: int,
    lang: Seq<char>,
) -> Seq<char> {
    if end > ctx_len {
        let part_start = if start > ctx_len {
            start
        } else {
            ctx_len
        };
        let part = text_between(bytes, part_start, end);
        let seen = has_letter_unit(text_between(bytes, start, part_start));
        let k = letter_prefix_len(part) as int;
        if k < part.len() && !seen {
            part.take(k) + titlecase_segment_of(part.skip(k), lang)
        } else {
            part
        }
    } else {
        Seq::empty()
    }
}

/// The output for the segments that end at `breaks[1]`, ..., `breaks[n - 1]`.
pub open spec fn capitalized_prefix(
    bytes: Seq<u8>,
    ctx_len: int,
    breaks: Seq<usize>,
    lang: Seq<char>,
    n: int,
) -> Seq<char>
    decreases n,
{
    if n <= 1 {
        Seq::empty()
    } else {
        capitalized_prefix(bytes, ctx_len, breaks, lang, n - 1) + segment_output(
            bytes,
            ctx_len,
            segment_start(breaks, n - 1),
            breaks[n - 1] as int,
            lang,
        )
    }
}

/// Capitalization of the text after the first `ctx_len` bytes of `bytes`, cut at `breaks`.
pub open spec fn capitalized(
    bytes: Seq<u8>,
    ctx_len: int,
    breaks: Seq<usize>,
    lang: Seq<char>,
) -> Seq<char> {
    capitalized_prefix(bytes, ctx_len, breaks, lang, breaks.len() as int)
}

/// Whether some character of `s` is a letter unit.
fn contains_letter_unit(s: &str) -> (r: bool)
    ensures
        r == has_letter_unit(s@),
{
    let n = s.unicode_len();
    let mut i: usize = 0;
    while i < n
        invariant
            n == s@.len(),
            i <= n,
            forall|j: int| 0 <= j < i ==> !is_letter_unit(#[trigger] s@[j]),
        decreases n - i,
    {
        let c = s.get_char(i);
        if is_typographic_letter_unit(c) {
            return true;
        }
        i = i + 1;
    }
    false
}

/// The number of characters before the first letter unit of `s`.
fn first_letter_unit(s: &str) -> (r: usize)
    ensures
        r == letter_prefix_len(s@),
{
    proof {
        lemma_letter_prefix_len(s@);
    }
    let n = s.unicode_len();
    let mut i: usize = 0;
    while i < n
        invariant
            n == s@.len(),
            i <= n,
            i <= letter_prefix_len(s@),
            forall|j: int| 0 <= j < i ==> !is_letter_unit(#[trigger] s@[j]),
        decreases n - i,
    {
        proof {
            lemma_letter_prefix_len(s@);
        }
        let c = s.get_char(i);
        if is_typographic_letter_unit(c) {
            return i;
        }
        i = i + 1;
    }
    i
}

/// Checks that `breaks` can cut `text` into segments (see [`breaks_usable`]).
pub fn check_breaks(text: &str, breaks: &Vec<usize>) -> (r: bool)
    ensures
        r == breaks_usable(text.spec_bytes(), breaks@),
{
    let n = breaks.len();
    let mut j: usize = 1;
    while j < n
        invariant
            n == breaks@.len(),
            1 <= j,
            forall|k: int| 1 <= k < j && k < n ==> is_char_boundary(text.spec_bytes(), #[trigger] breaks@[k] as int),
            forall|k: int| 1 <= k < j && k < n ==> segment_start(breaks@, k) <= #[trigger] breaks@[k],
        decreases n - j,
    {
        let start = if j <= 1 { 0 } else { breaks[j - 1] };
        if !text.is_char_boundary(breaks[j]) || start > breaks[j] {
            return false;
        }
        j = j + 1;
    }
    true
}

/// Capitalizes the text of `combined` after its first `context_len` bytes, using the
/// segment boundaries `breaks` of `combined`.
pub fn capitalize_segments(combined: &str, context_len: usize, breaks: &Vec<usize>, lang: &str) -> (r: String)
    requires
        breaks_usable(combined.spec_bytes(), breaks@),
        is_char_boundary(combined.spec_bytes(), context_len as int),
    ensures
        r@ == capitalized(combined.spec_bytes(), context_len as int, breaks@, lang@),
{
    let ghost bytes = combined.spec_bytes();
    proof {
        lemma_view_is_decoded(combined);
    }
    let mut output = String::new();
    let n = breaks.len();
    let mut j: usize = 1;
    while j < n
        invariant
            bytes == combined.spec_bytes(),
            n == breaks@.len(),
            1 <= j,
            breaks_usable(bytes, breaks@),
            is_char_boundary(bytes, context_len as int),
            is_char_boundary(bytes, 0),
            output@ == capitalized_prefix(bytes, context_len as int, breaks@, lang@, j as int),
            j <= n || j == 1,
        decreases n - j,
    {
        let seg_start = if j <= 1 { 0 } else { breaks[j - 1] };
        let segment_end = breaks[j];
        assert(is_char_boundary(bytes, breaks@[j as int] as int));
        assert(seg_start as int == segment_start(breaks@, j as int));
        if segment_end > context_len {
            let part_start = if seg_start > context_len { seg_start } else { context_len };
            if j > 1 {
                assert(is_char_boundary(bytes, breaks@[j - 1] as int));
            }
            let part = byte_slice(combined, part_start, segment_end);
            let before = byte_slice(combined, seg_start, part_start);
            let first_letter_already_seen = contains_letter_unit(before);
            let letter_start = first_letter_unit(part);
            let part_len = part.unicode_len();
            if letter_start < part_len && !first_letter_already_seen {
                let head = part.substring_char(0, letter_start);
                let tail = part.substring_char(letter_start, part_len);
                output.append(head);
                let titled = titlecase_segment_to_string(tail, lang);
                output.append(titled.as_str());
                proof {
                    assert(head@ =~= part@.take(letter_start as int));
                    assert(tail@ =~= part@.skip(letter_start as int));
                }
            } else {
                output.append(part);
            }
        }
        j = j + 1;
    }
    proof {
        if n == 0 {
            assert(capitalized_prefix(bytes, context_len as int, breaks@, lang@, 1) =~= Seq::empty());
        }
    }
    output
}

/// Applies case transforms to the sequence of text nodes in an inline formatting context.
///
/// `capitalize` operates on words, which may span multiple text nodes, so the (untransformed)
/// text preceding the current text node is kept as context for word segmentation.
pub struct TextTransformer {
    context: String,
}

impl TextTransformer {
    /// The bytes of the kept context.
    pub closed spec fn context_bytes(&self) -> Seq<u8> {
        bytes_of(self.context@)
    }

    /// The characters of the kept context.
    pub closed spec fn context_text(&self) -> Seq<char> {
        self.context@
    }

    /// The kept context is at most `MAX_CONTEXT_LEN` bytes long.
    #[verifier::type_invariant]
    spec fn context_fits(&self) -> bool {
        bytes_of(self.context@).len() <= MAX_CONTEXT_LEN
    }

    /// The kept context is valid UTF-8 that decodes to its characters.
    pub proof fn lemma_context(&self)
        ensures
            valid_utf8(self.context_bytes()),
            decode_utf8(self.context_bytes()) == self.context_text(),
    {
        encode_utf8_valid_utf8(self.context@);
        encode_utf8_decode_utf8(self.context@);
    }

    /// A transformer with no context.
    pub fn new() -> (r: Self)
        ensures
            r.context_text() == Seq::<char>::empty(),
            r.context_bytes() == Seq::<u8>::empty(),
    {
        TextTransformer { context: String::new() }
    }

    /// Forces a word boundary (e.g. at an atomic inline or a forced line break).
    pub fn word_break(&mut self)
        ensures
            final(self).context_text() == Seq::<char>::empty(),
            final(self).context_bytes() == Seq::<u8>::empty(),
    {
        self.context = String::new();
    }

    /// Transforms the content of a text node. Must be called for every text node in the
    /// inline formatting context (in order), including those that are not transformed.
    pub fn transform(&mut self, text: &str, transform: &CaseTransform) -> (r: String)
        ensures
            r@ == match transform.kind {
                TextTransform::Uppercase => uppercase_of(text@, transform.lang@),
                TextTransform::Lowercase => lowercase_of(text@, transform.lang@),
                TextTransform::Capitalize => capitalize_result(
                    old(self).context_bytes(),
                    text,
                    transform.lang@,
                ),
                TextTransform::Unchanged => text@,
            },
            final(self).context_bytes() == pushed_context(old(self).context_bytes(), text.spec_bytes()),
            final(self).context_bytes().len() <= MAX_CONTEXT_LEN,
    {
        proof {
            use_type_invariant(&*self);
        }
        let transformed = match transform.kind {
            TextTransform::Uppercase => uppercase_to_string(text, transform.lang.as_str()),
            TextTransform::Lowercase => lowercase_to_string(text, transform.lang.as_str()),
            TextTransform::Capitalize => self.capitalize(text, transform.lang.as_str()),
            TextTransform::Unchanged => String::from_str(text),
        };
        self.push_context(text);
        transformed
    }

    /// Titlecases the first typographic letter unit of each word, leaving other characters
    /// unchanged.
    pub fn capitalize(&self, text: &str, lang: &str) -> (r: String)
        ensures
            r@ == capitalize_result(self.context_bytes(), text, lang@),
    {
        let ctx = self.context.as_str();
        let context_len = byte_len(ctx);
        let combined = concat_str(ctx, text);
        let combined_str = combined.as_str();
        proof {
            lemma_view_is_decoded(ctx);
            lemma_view_is_decoded(text);
            lemma_boundary_at_join(ctx.spec_bytes(), text.spec_bytes());
        }
        let breaks = segment_words(combined_str);
        if check_breaks(combined_str, &breaks) {
            capitalize_segments(combined_str, context_len, &breaks, lang)
        } else {
            String::from_str(text)
        }
    }

    /// Keeps the end of the text seen so far as context for the next text node.
    pub fn push_context(&mut self, text: &str)
        ensures
            final(self).context_bytes() == pushed_context(old(self).context_bytes(), text.spec_bytes()),
            final(self).context_bytes().len() <= MAX_CONTEXT_LEN,
    {
        proof {
            use_type_invariant(&*self);
            lemma_view_is_decoded(text);
        }
        let text_len = byte_len(text);
        if text_len >= MAX_CONTEXT_LEN {
            let start = ceil_char_boundary(text, text_len - MAX_CONTEXT_LEN);
            let kept = byte_slice(text, start, text_len);
            self.context = String::from_str(kept);
        } else {
            let joined = concat_str(self.context.as_str(), text);
            let joined_str = joined.as_str();
            proof {
                lemma_view_is_decoded(joined_str);
            }
            let joined_len = byte_len(joined_str);
            if joined_len > MAX_CONTEXT_LEN {
                let start = ceil_char_boundary(joined_str, joined_len - MAX_CONTEXT_LEN);
                let kept = byte_slice(joined_str, start, joined_len);
                self.context = String::from_str(kept);
            } else {
                self.context = joined;
            }
        }
    }
}

impl Default for TextTransformer {
    fn default() -> (r: Self)
        ensures
            r.context_text() == Seq::<char>::empty(),
            r.context_bytes() == Seq::<u8>::empty(),
    {
        TextTransformer::new()
    }
}

/// What `capitalize` gives for `text` after the context `ctx`: the capitalized segments of
/// `ctx + text` when ICU's breakpoints can cut it, else `text` unchanged.
pub open spec fn capitalize_result(ctx: Seq<u8>, text: &str, lang: Seq<char>) -> Seq<char> {
    let combined_text = decode_utf8(ctx) + text@;
    let bytes = ctx + text.spec_bytes();
    let breaks = word_breaks_of(combined_text);
    if breaks_usable(bytes, breaks) {
        capitalized(bytes, ctx.len() as int, breaks, lang)
    } else {
        text@
    }
}

} // verus!
