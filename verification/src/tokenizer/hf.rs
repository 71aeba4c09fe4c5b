//! The tokenizer: text to token ids and back.

use crate::error::EngineError;
use crate::id::TokenId;
use crate::scheduler::driver::contains;
use crate::text::{join3, owned};
use crate::tokenizer::chars::{char_vec, find, find_from, occurs, occurs_at, stands_at};
use tokenizers::models::ModelWrapper;
use tokenizers::{PaddingStrategy, PostProcessor, Tokenizer as HfTokenizer};
use vstd::prelude::*;
use vstd::string::*;

verus! {

/// `tokenizers::Tokenizer`: a loaded vocabulary with the rules to apply it.
#[verifier::external_type_specification]
#[verifier::external_body]
pub struct ExHfTokenizer(HfTokenizer);

/// What `tokenizers::Tokenizer::decode` makes of token ids: their text, or the
/// message of the failure.
pub uninterp spec fn decoded(
    inner: HfTokenizer,
    ids: Seq<u32>,
    skip_special_tokens: bool,
) -> Result<Seq<char>, Seq<char>>;

/// What `tokenizers::Tokenizer::encode` makes of a text, where nothing in it is
/// left to chance: the token ids, or the message of the failure.
pub uninterp spec fn encoded(
    inner: HfTokenizer,
    text: Seq<char>,
    add_special_tokens: bool,
) -> Result<Seq<u32>, Seq<char>>;

/// The settings of the model that `tokenizers::Tokenizer::get_model` returns
/// which leave its work to chance, as bit patterns: the dropout of a byte-pair
/// model and the smoothing of a unigram model.
pub uninterp spec fn chance_settings(inner: HfTokenizer) -> (Option<u32>, Option<u64>);

/// The length and the stride that `tokenizers::Tokenizer::get_truncation`
/// returns, where texts are truncated.
pub uninterp spec fn truncation(inner: HfTokenizer) -> Option<(usize, usize)>;

/// How many tokens the post-processor that
/// `tokenizers::Tokenizer::get_post_processor` returns adds to a text.
pub uninterp spec fn added_tokens(inner: HfTokenizer) -> usize;

/// The token that `tokenizers::Tokenizer::id_to_token` finds for an id.
pub uninterp spec fn token_text(inner: HfTokenizer, id: u32) -> Option<Seq<char>>;

/// Whether `tokenizers::AddedVocabulary::is_special_token` holds of a token, in
/// the added vocabulary of a tokenizer.
pub uninterp spec fn special_token(inner: HfTokenizer, token: Seq<char>) -> bool;

/// The decoder of a tokenizer in JSON, as `serde_json::to_string` writes what
/// `tokenizers::Tokenizer::get_decoder` returns.
pub uninterp spec fn decoder_json(inner: HfTokenizer) -> Seq<char>;

/// The pre-tokenizer of a tokenizer in JSON, as `serde_json::to_string` writes
/// what `tokenizers::Tokenizer::get_pre_tokenizer` returns.
pub uninterp spec fn splitter_json(inner: HfTokenizer) -> Seq<char>;

/// The post-processor of a tokenizer in JSON, as `serde_json::to_string` writes
/// what `tokenizers::Tokenizer::get_post_processor` returns.
pub uninterp spec fn processor_json(inner: HfTokenizer) -> Seq<char>;

/// The normalizer of a tokenizer in JSON, as `serde_json::to_string` writes what
/// `tokenizers::Tokenizer::get_normalizer` returns.
pub uninterp spec fn normalizer_json(inner: HfTokenizer) -> Seq<char>;

/// The tokens added to the vocabulary of a tokenizer in JSON, as
/// `serde_json::to_string` writes what
/// `tokenizers::Tokenizer::get_added_vocabulary` returns: in the order of their
/// ids.
pub uninterp spec fn added_json(inner: HfTokenizer) -> Seq<char>;

/// The fixed length and the multiple that `tokenizers::Tokenizer::get_padding`
/// returns, each where it is set and texts are padded.
pub uninterp spec fn padding(inner: HfTokenizer) -> Option<(Option<usize>, Option<usize>)>;

/// How many tokens `tokenizers::Tokenizer::get_vocab_size` counts.
pub uninterp spec fn vocabulary_size(
    inner: HfTokenizer,
    with_added_tokens: bool,
) -> usize;

/// Whether a decoder, given as JSON, cuts nothing from the end of a token:
/// every `stop` count is zero.
///
/// A decoder that does cut there reads before the beginning of a token that is
/// shorter than the cut, and panics.
pub open spec fn cuts_no_ends(json: Seq<char>) -> bool {
    forall|at: int|
        #[trigger] occurs_at(json, "\"stop\":"@, at) ==> at + 7 < json.len() && json[at + 7] == '0'
}

/// Whether a decoder, given as JSON, is defined on no tokens too. The decoder
/// of end-of-word marks counts down from the number of tokens and panics where
/// there is none.
pub open spec fn decodes_nothing_too(json: Seq<char>) -> bool {
    !occurs(json, "\"type\":\"BPEDecoder\""@)
}

/// Whether a decoder, given as JSON, is that of end-of-word marks and no other
/// comes before it.
pub open spec fn decodes_end_marks(json: Seq<char>) -> bool {
    occurs_at(json, "{\"type\":\"BPEDecoder\""@, 0)
}

/// Whether an id stands for a token that is decoded.
pub open spec fn is_decoded(inner: HfTokenizer, id: u32, skip_special_tokens: bool) -> bool {
    token_text(inner, id) matches Some(token) && !(skip_special_tokens && special_token(
        inner,
        token,
    ))
}

/// Whether one of the ids stands for a token that is decoded.
pub open spec fn keeps_a_token(inner: HfTokenizer, ids: Seq<u32>, skip_special_tokens: bool) -> bool {
    exists|k: int|
        0 <= k < ids.len() && is_decoded(inner, #[trigger] ids[k], skip_special_tokens)
}

/// Whether decoding is defined on a run of tokens.
pub open spec fn decodes_run(inner: HfTokenizer, ids: Seq<u32>, skip_special_tokens: bool) -> bool {
    &&& cuts_no_ends(decoder_json(inner))
    &&& matches_forward(decoder_json(inner))
    &&& decodes_nothing_too(decoder_json(inner)) || decodes_end_marks(decoder_json(inner))
        && keeps_a_token(inner, ids, skip_special_tokens)
}

/// The text of a run of tokens, or why there is none: the decoder's own failure,
/// or that it is not defined on the run.
pub open spec fn text_of(inner: HfTokenizer, ids: Seq<u32>, skip_special_tokens: bool) -> Result<
    Seq<char>,
    Seq<char>,
> {
    if decodes_run(inner, ids, skip_special_tokens) {
        decoded(inner, ids, skip_special_tokens)
    } else {
        Err("the tokenizer cannot decode these tokens"@)
    }
}

/// Whether a character after a backslash refers back to a group of a regular
/// expression, calls one, or moves the beginning of the match.
pub open spec fn is_reference_mark(c: char) -> bool {
    ('0' <= c && c <= '9') || c == 'k' || c == 'K' || c == 'g'
}

/// Whether the regular expressions in a part of a tokenizer, given as JSON, do
/// not refer back to what they have matched and do not move the beginning of a
/// match. An expression that does can take a piece of text that ends before it
/// begins, and panics there.
pub open spec fn matches_forward(json: Seq<char>) -> bool {
    &&& forall|at: int| #[trigger]
        occurs_at(json, "\\\\"@, at) && at + 2 < json.len() ==> !is_reference_mark(json[at + 2])
    &&& !occurs(json, "?P="@)
    &&& !occurs(json, "?P>"@)
}

/// Calls `tokenizers::Tokenizer::decode`, which maps each id to its token,
/// leaves out special tokens if asked to, and joins the tokens as the
/// tokenizer's decoder does. The result, which is a function of the tokenizer
/// and the arguments, is named by [`decoded`].
#[verifier::external_body]
fn decode_ids(inner: &HfTokenizer, ids: &[u32], skip_special_tokens: bool) -> (r: Result<
    String,
    String,
>)
    requires
        decodes_run(*inner, ids@, skip_special_tokens),
    ensures
        match r {
            Ok(text) => decoded(*inner, ids@, skip_special_tokens) == Ok::<Seq<char>, Seq<char>>(
                text@,
            ),
            Err(message) => decoded(*inner, ids@, skip_special_tokens) == Err::<
                Seq<char>,
                Seq<char>,
            >(message@),
        },
{
    match inner.decode(ids, skip_special_tokens) {
        Ok(text) => Ok(text),
        Err(e) => Err(e.to_string()),
    }
}

/// Whether a model with these settings leaves nothing to chance.
pub open spec fn leaves_nothing_to_chance(settings: (Option<u32>, Option<u64>)) -> bool {
    settings.0 is None && settings.1 is None
}

/// Whether a model with these settings samples no pieces. Sampling panics where
/// no pieces cover the text.
pub open spec fn samples_nothing(settings: (Option<u32>, Option<u64>)) -> bool {
    settings.1 is None
}

/// Whether a normalizer, given as JSON, is sure to keep every character of its
/// result next to the text that it stands for. A compiled map of replacements
/// reads past the end of a table that is cut short. A replacement for no text,
/// which an empty pattern and some regular expressions find, and a prefix
/// without text leave characters at the front that stand for nothing, and the
/// step after it reads past the end of the text.
pub open spec fn normalizes_in_place(json: Seq<char>) -> bool {
    &&& !occurs(json, "\"type\":\"Precompiled\""@)
    &&& !occurs(json, "\"Regex\":"@)
    &&& !occurs(json, "\"String\":\"\""@)
    &&& !occurs(json, "\"prepend\":\"\""@)
}

/// Whether the added tokens of a tokenizer, given as JSON, strip white space on
/// one side only. Where one token strips it on its right and the next is that
/// white space and strips it on its left, the next ends before it begins, and
/// splitting them off panics.
pub open spec fn strips_one_side(json: Seq<char>) -> bool {
    !occurs(json, "\"lstrip\":true"@) || !occurs(json, "\"rstrip\":true"@)
}

/// The longest padding that can be asked for, in tokens.
pub const LONGEST_PADDING: usize = 0x100_0000;

/// Whether a length to pad to can be held in memory, where there is one.
pub open spec fn is_paddable(length: Option<usize>) -> bool {
    length matches Some(n) ==> n <= LONGEST_PADDING
}

/// Whether texts are padded to lengths that can be held in memory. Padding to
/// others panics.
pub open spec fn pads_within_memory(limits: Option<(Option<usize>, Option<usize>)>) -> bool {
    limits matches Some((fixed, multiple)) ==> is_paddable(fixed) && is_paddable(multiple)
}

/// Whether a long text can be cut to a length with a stride between the parts:
/// it is cut away, or the parts are longer than the stride.
pub open spec fn cut_is_defined(length: int, stride: int) -> bool {
    length == 0 || stride < length
}

/// Whether a text of any length can be truncated, with and without the tokens
/// that are added to it. Otherwise truncating a long one panics.
pub open spec fn truncates_forward(limits: Option<(usize, usize)>, added: usize) -> bool {
    match limits {
        Some((length, stride)) => {
            &&& cut_is_defined(length as int, stride as int)
            &&& added <= length
            &&& cut_is_defined(length - added, stride as int)
        },
        None => true,
    }
}

/// Whether a pre-tokenizer, given as JSON, splits off pieces of at least one
/// character. Pieces of no character make it panic.
pub open spec fn splits_off_text(json: Seq<char>) -> bool {
    !occurs(json, "\"type\":\"FixedLength\",\"length\":0"@)
}

/// Whether place `at` of a post-processor's JSON is in the template for one
/// text: the template for two comes after it.
pub open spec fn in_single(json: Seq<char>, at: int) -> bool {
    forall|p: int| #[trigger] occurs_at(json, "\"pair\":["@, p) ==> at <= p
}

/// Whether a post-processor's JSON defines the special token of that name:
/// first in the list of them, or after another.
pub open spec fn defines_token(json: Seq<char>, name: Seq<char>) -> bool {
    ||| occurs(json, "\"special_tokens\":{\""@ + name + "\":{\"id\":"@)
    ||| occurs(json, ",\""@ + name + "\":{\"id\":"@)
}

/// Whether the name that begins at that place of a post-processor's JSON is
/// that of a special token it defines.
pub open spec fn names_defined_token(json: Seq<char>, start: int) -> bool {
    exists|end: int|
        {
            &&& start <= end
            &&& #[trigger] occurs_at(json, "\",\"type_id\":"@, end)
            &&& forall|k: int|
                start <= k < end ==> !#[trigger] occurs_at(json, "\",\"type_id\":"@, k)
            &&& defines_token(json, json.subrange(start, end))
        }
}

/// Whether the template of a post-processor, given as JSON, can be applied to
/// one text: it is the only one, names no second text and names only special
/// tokens that are defined. Otherwise applying it panics.
pub open spec fn template_is_defined(json: Seq<char>) -> bool {
    &&& forall|a: int, b: int| #[trigger]
        occurs_at(json, "\"single\":["@, a) && #[trigger] occurs_at(json, "\"single\":["@, b)
            ==> a == b
    &&& forall|at: int| #[trigger]
        occurs_at(json, "{\"Sequence\":{\"id\":\"B\""@, at) ==> !in_single(json, at)
    &&& forall|at: int| #[trigger]
        occurs_at(json, "{\"SpecialToken\":{\"id\":\""@, at) && in_single(json, at)
            ==> names_defined_token(json, at + "{\"SpecialToken\":{\"id\":\""@.len())
}

/// Calls `tokenizers::Tokenizer::encode`, which normalizes and splits a text,
/// maps the pieces to ids by its model, truncates and adds special tokens if
/// asked to. [`encoded`] names the result where the model leaves nothing to
/// chance; a model that drops merges may give another result each time, and
/// nothing is said of it.
#[verifier::external_body]
fn encode_text(inner: &HfTokenizer, text: &str, add_special_tokens: bool) -> (r: Result<
    Vec<u32>,
    String,
>)
    requires
        truncates_forward(truncation(*inner), added_tokens(*inner)),
        splits_off_text(splitter_json(*inner)),
        matches_forward(splitter_json(*inner)),
        template_is_defined(processor_json(*inner)),
        normalizes_in_place(normalizer_json(*inner)),
        strips_one_side(added_json(*inner)),
        pads_within_memory(padding(*inner)),
        samples_nothing(chance_settings(*inner)),
    ensures
        leaves_nothing_to_chance(chance_settings(*inner)) ==> match r {
            Ok(ids) => encoded(*inner, text@, add_special_tokens) == Ok::<Seq<u32>, Seq<char>>(
                ids@,
            ),
            Err(message) => encoded(*inner, text@, add_special_tokens) == Err::<
                Seq<u32>,
                Seq<char>,
            >(message@),
        },
{
    match inner.encode(text, add_special_tokens) {
        Ok(encoding) => Ok(encoding.get_ids().to_vec()),
        Err(e) => Err(e.to_string()),
    }
}

/// Calls `tokenizers::Tokenizer::get_model` and reads the settings that
/// [`chance_settings`] names.
#[verifier::external_body]
fn model_settings(inner: &HfTokenizer) -> (r: (Option<u32>, Option<u64>))
    ensures
        r == chance_settings(*inner),
{
    match inner.get_model() {
        ModelWrapper::BPE(model) => (model.dropout.map(|d| d.to_bits()), None),
        ModelWrapper::Unigram(model) => (None, model.alpha.map(|a| a.to_bits())),
        ModelWrapper::WordPiece(_) => (None, None),
        ModelWrapper::WordLevel(_) => (None, None),
    }
}

/// Calls `tokenizers::Tokenizer::get_truncation`, whose length and stride
/// [`truncation`] names.
#[verifier::external_body]
fn truncation_limits(inner: &HfTokenizer) -> (r: Option<(usize, usize)>)
    ensures
        r == truncation(*inner),
{
    inner.get_truncation().map(|t| (t.max_length, t.stride))
}

/// Calls `tokenizers::Tokenizer::get_post_processor` and counts what it adds to
/// a text, which [`added_tokens`] names.
#[verifier::external_body]
fn count_added(inner: &HfTokenizer) -> (r: usize)
    ensures
        r == added_tokens(*inner),
{
    match inner.get_post_processor() {
        Some(processor) => processor.added_tokens(false),
        None => 0,
    }
}

/// Calls `tokenizers::Tokenizer::id_to_token`, whose result [`token_text`] names.
#[verifier::external_body]
fn find_token(inner: &HfTokenizer, id: u32) -> (r: Option<String>)
    ensures
        match r {
            Some(token) => token_text(*inner, id) == Some(token@),
            None => token_text(*inner, id) is None,
        },
{
    inner.id_to_token(id)
}

/// Calls `tokenizers::Tokenizer::get_added_vocabulary` and
/// `tokenizers::AddedVocabulary::is_special_token` on it, whose result
/// [`special_token`] names.
#[verifier::external_body]
fn is_special(inner: &HfTokenizer, token: &str) -> (r: bool)
    ensures
        r == special_token(*inner, token@),
{
    inner.get_added_vocabulary().is_special_token(token)
}

/// Calls `tokenizers::Tokenizer::get_decoder` and writes what it returns as
/// JSON, which [`decoder_json`] names.
#[verifier::external_body]
fn decoder_text(inner: &HfTokenizer) -> (r: String)
    ensures
        r@ == decoder_json(*inner),
{
    match serde_json::to_string(&inner.get_decoder()) {
        Ok(json) => json,
        Err(e) => e.to_string(),
    }
}

/// Calls `tokenizers::Tokenizer::get_pre_tokenizer` and writes what it returns
/// as JSON, which [`splitter_json`] names.
#[verifier::external_body]
fn splitter_text(inner: &HfTokenizer) -> (r: String)
    ensures
        r@ == splitter_json(*inner),
{
    match serde_json::to_string(&inner.get_pre_tokenizer()) {
        Ok(json) => json,
        Err(e) => e.to_string(),
    }
}

/// Calls `tokenizers::Tokenizer::get_post_processor` and writes what it returns
/// as JSON, which [`processor_json`] names.
#[verifier::external_body]
fn processor_text(inner: &HfTokenizer) -> (r: String)
    ensures
        r@ == processor_json(*inner),
{
    match serde_json::to_string(&inner.get_post_processor()) {
        Ok(json) => json,
        Err(e) => e.to_string(),
    }
}

/// Calls `tokenizers::Tokenizer::get_normalizer` and writes what it returns as
/// JSON, which [`normalizer_json`] names.
#[verifier::external_body]
fn normalizer_text(inner: &HfTokenizer) -> (r: String)
    ensures
        r@ == normalizer_json(*inner),
{
    match serde_json::to_string(&inner.get_normalizer()) {
        Ok(json) => json,
        Err(e) => e.to_string(),
    }
}

/// Calls `tokenizers::Tokenizer::get_added_vocabulary` and writes what it
/// returns as JSON, which [`added_json`] names.
#[verifier::external_body]
fn added_text(inner: &HfTokenizer) -> (r: String)
    ensures
        r@ == added_json(*inner),
{
    match serde_json::to_string(inner.get_added_vocabulary()) {
        Ok(json) => json,
        Err(e) => e.to_string(),
    }
}

/// Calls `tokenizers::Tokenizer::get_padding`, whose fixed length and multiple
/// [`padding`] names.
#[verifier::external_body]
fn padding_limits(inner: &HfTokenizer) -> (r: Option<(Option<usize>, Option<usize>)>)
    ensures
        r == padding(*inner),
{
    inner.get_padding().map(|p| match p.strategy {
        PaddingStrategy::BatchLongest => (None, p.pad_to_multiple_of),
        PaddingStrategy::Fixed(length) => (Some(length), p.pad_to_multiple_of),
    })
}

/// Calls `tokenizers::Tokenizer::get_vocab_size`, whose result
/// [`vocabulary_size`] names.
#[verifier::external_body]
fn count_vocabulary(inner: &HfTokenizer, with_added_tokens: bool) -> (r: usize)
    ensures
        r == vocabulary_size(*inner, with_added_tokens),
{
    inner.get_vocab_size(with_added_tokens)
}

/// A loaded tokenizer.
#[derive(Debug)]
pub struct Tokenizer {
    inner: HfTokenizer,
    bos_token_id: Option<TokenId>,
    eos_token_ids: Vec<TokenId>,
}

impl Tokenizer {
    /// The vocabulary and rules behind this tokenizer.
    pub closed spec fn hf(&self) -> HfTokenizer {
        self.inner
    }

    pub closed spec fn bos(&self) -> Option<TokenId> {
        self.bos_token_id
    }

    pub closed spec fn eos(&self) -> Seq<TokenId> {
        self.eos_token_ids@
    }

    /// Whether decoding is defined on a run of tokens.
    pub open spec fn decodes(&self, ids: Seq<TokenId>, skip_special_tokens: bool) -> bool {
        decodes_run(self.hf(), ids, skip_special_tokens)
    }

    /// Whether encoding is defined on every text.
    pub open spec fn encodes(&self) -> bool {
        &&& truncates_forward(truncation(self.hf()), added_tokens(self.hf()))
        &&& splits_off_text(splitter_json(self.hf()))
        &&& matches_forward(splitter_json(self.hf()))
        &&& template_is_defined(processor_json(self.hf()))
        &&& normalizes_in_place(normalizer_json(self.hf()))
        &&& strips_one_side(added_json(self.hf()))
        &&& pads_within_memory(padding(self.hf()))
        &&& samples_nothing(chance_settings(self.hf()))
    }

    /// Whether a text is encoded the same way each time.
    pub open spec fn repeats(&self) -> bool {
        leaves_nothing_to_chance(chance_settings(self.hf()))
    }

    /// Builds from an already-constructed tokenizer.
    pub fn from_hf(inner: HfTokenizer) -> (r: Self)
        ensures
            r.hf() == inner,
            r.bos() is None,
            r.eos() == Seq::<TokenId>::empty(),
    {
        Tokenizer { inner, bos_token_id: None, eos_token_ids: Vec::new() }
    }

    /// Records the special token ids taken from the model config.
    ///
    /// The tokenizer's own view occasionally disagrees; the model's is what
    /// governs generation.
    pub fn with_special_tokens(self, bos: Option<TokenId>, eos: Vec<TokenId>) -> (r: Self)
        ensures
            r.hf() == self.hf(),
            r.bos() == bos,
            r.eos() == eos@,
    {
        let mut t = self;
        t.bos_token_id = bos;
        t.eos_token_ids = eos;
        t
    }

    pub fn bos_token_id(&self) -> (r: Option<TokenId>)
        ensures
            r == self.bos(),
    {
        self.bos_token_id
    }

    pub fn eos_token_ids(&self) -> (r: &[TokenId])
        ensures
            r@ == self.eos(),
    {
        self.eos_token_ids.as_slice()
    }

    /// Vocabulary size including added tokens.
    pub fn vocab_size(&self) -> (r: usize)
        ensures
            r == vocabulary_size(self.hf(), true),
    {
        count_vocabulary(&self.inner, true)
    }

    /// Whether decoding is defined on a run of tokens. It is with any decoder
    /// but one that cuts characters from the ends of tokens and one with a
    /// regular expression that refers back; a decoder of end-of-word marks needs
    /// a token that is decoded.
    pub fn can_decode(&self, ids: &[TokenId], skip_special_tokens: bool) -> (r: bool)
        ensures
            r == self.decodes(ids@, skip_special_tokens),
    {
        let json = decoder_text(&self.inner);
        every_stop_is_zero(json.as_str()) && refers_to_nothing(json.as_str()) && (!holds(
            json.as_str(),
            "\"type\":\"BPEDecoder\"",
        ) || begins_with(json.as_str(), "{\"type\":\"BPEDecoder\"") && self.has_token(
            ids,
            skip_special_tokens,
        ))
    }

    /// Whether one of the ids stands for a token that is decoded.
    fn has_token(&self, ids: &[TokenId], skip_special_tokens: bool) -> (r: bool)
        ensures
            r == keeps_a_token(self.hf(), ids@, skip_special_tokens),
    {
        let mut i: usize = 0;
        while i < ids.len()
            invariant
                i <= ids@.len(),
                forall|k: int|
                    0 <= k < i ==> !is_decoded(self.hf(), #[trigger] ids@[k], skip_special_tokens),
            decreases ids@.len() - i,
        {
            let kept: bool = match find_token(&self.inner, ids[i]) {
                Some(token) => !(skip_special_tokens && is_special(&self.inner, token.as_str())),
                None => false,
            };
            assert(kept == is_decoded(self.hf(), ids@[i as int], skip_special_tokens));
            if kept {
                return true;
            }
            i += 1;
        }
        false
    }

    /// Whether encoding is defined on every text: a long one can be truncated
    /// and a short one padded, the text is normalized in place, pieces are split
    /// off forward and with text in them, no pieces are sampled, and the template
    /// of special tokens defines what it names.
    pub fn can_encode(&self) -> (r: bool)
        ensures
            r == self.encodes(),
    {
        let truncates: bool = match truncation_limits(&self.inner) {
            None => true,
            Some((length, stride)) => {
                let added: usize = count_added(&self.inner);
                (length == 0 || stride < length) && added <= length && (length == added || stride
                    < length - added)
            },
        };
        let pads: bool = match padding_limits(&self.inner) {
            None => true,
            Some((fixed, multiple)) => fits_padding(fixed) && fits_padding(multiple),
        };
        let splitter = splitter_text(&self.inner);
        let normalizer = normalizer_text(&self.inner);
        let added = added_text(&self.inner);
        truncates && pads && model_settings(&self.inner).1.is_none() && !holds(
            splitter.as_str(),
            "\"type\":\"FixedLength\",\"length\":0",
        ) && refers_to_nothing(splitter.as_str()) && has_defined_template(
            processor_text(&self.inner).as_str(),
        ) && !holds(normalizer.as_str(), "\"type\":\"Precompiled\"") && !holds(
            normalizer.as_str(),
            "\"Regex\":",
        ) && !holds(normalizer.as_str(), "\"String\":\"\"") && !holds(
            normalizer.as_str(),
            "\"prepend\":\"\"",
        ) && (!holds(added.as_str(), "\"lstrip\":true") || !holds(
            added.as_str(),
            "\"rstrip\":true",
        ))
    }

    /// Whether a text is encoded the same way each time: no merges are dropped
    /// and no pieces are sampled.
    pub fn is_repeatable(&self) -> (r: bool)
        ensures
            r == self.repeats(),
    {
        let settings = model_settings(&self.inner);
        settings.0.is_none() && settings.1.is_none()
    }

    /// Encodes text to token ids.
    ///
    /// `add_special_tokens` controls whether the tokenizer's own template
    /// (typically a BOS) is applied. A failure is reported as a tokenizer
    /// error.
    pub fn encode(&self, text: &str, add_special_tokens: bool) -> (r: Result<
        Vec<TokenId>,
        EngineError,
    >)
        requires
            self.encodes(),
        ensures
            r matches Err(e) ==> e is Tokenizer,
            self.repeats() ==> match r {
                Ok(ids) => encoded(self.hf(), text@, add_special_tokens) == Ok::<
                    Seq<TokenId>,
                    Seq<char>,
                >(ids@),
                Err(e) => e matches EngineError::Tokenizer(message) && encoded(
                    self.hf(),
                    text@,
                    add_special_tokens,
                ) == Err::<Seq<TokenId>, Seq<char>>(message@),
            },
    {
        match encode_text(&self.inner, text, add_special_tokens) {
            Ok(ids) => Ok(ids),
            Err(message) => Err(EngineError::Tokenizer(message)),
        }
    }

    /// Decodes token ids back to text.
    pub fn decode(&self, ids: &[TokenId], skip_special_tokens: bool) -> (r: Result<
        String,
        EngineError,
    >)
        requires
            self.decodes(ids@, skip_special_tokens),
        ensures
            match r {
                Ok(text) => decoded(self.hf(), ids@, skip_special_tokens) == Ok::<
                    Seq<char>,
                    Seq<char>,
                >(text@),
                Err(e) => e matches EngineError::Tokenizer(message) && decoded(
                    self.hf(),
                    ids@,
                    skip_special_tokens,
                ) == Err::<Seq<char>, Seq<char>>(message@),
            },
    {
        match decode_ids(&self.inner, ids, skip_special_tokens) {
            Ok(text) => Ok(text),
            Err(message) => Err(EngineError::Tokenizer(message)),
        }
    }

    /// As [`Self::decode`], for any run of tokens: one on which decoding is not
    /// defined is refused.
    pub fn try_decode(&self, ids: &[TokenId], skip_special_tokens: bool) -> (r: Result<
        String,
        EngineError,
    >)
        ensures
            match r {
                Ok(text) => text_of(self.hf(), ids@, skip_special_tokens) == Ok::<
                    Seq<char>,
                    Seq<char>,
                >(text@),
                Err(e) => e matches EngineError::Tokenizer(message) && text_of(
                    self.hf(),
                    ids@,
                    skip_special_tokens,
                ) == Err::<Seq<char>, Seq<char>>(message@),
            },
    {
        if self.can_decode(ids, skip_special_tokens) {
            self.decode(ids, skip_special_tokens)
        } else {
            Err(EngineError::Tokenizer(owned("the tokenizer cannot decode these tokens")))
        }
    }

    /// Whether a token id terminates generation.
    pub fn is_eos(&self, token: TokenId) -> (r: bool)
        ensures
            r == self.eos().contains(token),
    {
        contains(self.eos_token_ids.as_slice(), token)
    }
}

/// Whether a text holds another.
fn holds(text: &str, part: &str) -> (r: bool)
    ensures
        r == occurs(text@, part@),
{
    find(&char_vec(text), &char_vec(part)).is_some()
}

/// Whether a text begins with another.
fn begins_with(text: &str, part: &str) -> (r: bool)
    ensures
        r == occurs_at(text@, part@, 0),
{
    let whole = char_vec(text);
    let beginning = char_vec(part);
    beginning.len() <= whole.len() && stands_at(&whole, &beginning, 0)
}

/// Whether a length to pad to can be held in memory, where there is one.
fn fits_padding(length: Option<usize>) -> (r: bool)
    ensures
        r == is_paddable(length),
{
    match length {
        Some(n) => n <= LONGEST_PADDING,
        None => true,
    }
}

/// Whether the regular expressions in a JSON text refer back to nothing.
pub fn refers_to_nothing(json: &str) -> (r: bool)
    ensures
        r == matches_forward(json@),
{
    let text = char_vec(json);
    let escape = char_vec("\\\\");
    let len: usize = text.len();
    proof {
        reveal_strlit("\\\\");
        assert(escape@.len() == 2);
    }
    let mut at: usize = 0;
    while at < len && len - at > 2
        invariant
            text@ == json@,
            escape@ == "\\\\"@,
            escape@.len() == 2,
            len == text@.len(),
            at <= len,
            forall|k: int|
                0 <= k < at && #[trigger] occurs_at(json@, "\\\\"@, k) && k + 2 < json@.len()
                    ==> !is_reference_mark(json@[k + 2]),
        decreases len - at,
    {
        if stands_at(&text, &escape, at) {
            let c = text[at + 2];
            if ('0' <= c && c <= '9') || c == 'k' || c == 'K' || c == 'g' {
                proof {
                    assert(occurs_at(json@, "\\\\"@, at as int));
                }
                return false;
            }
        }
        at += 1;
    }
    proof {
        assert forall|k: int| #[trigger]
            occurs_at(json@, "\\\\"@, k) && k + 2 < json@.len() implies !is_reference_mark(
            json@[k + 2],
        ) by {
            assert(k < at);
        }
    }
    !holds(json, "?P=") && !holds(json, "?P>")
}

/// Whether the name that begins at that place is that of a defined token.
fn has_defined_name(json: &str, text: &Vec<char>, start: usize) -> (r: bool)
    requires
        text@ == json@,
        start <= text@.len(),
    ensures
        r == names_defined_token(json@, start as int),
{
    match find_from(text, &char_vec("\",\"type_id\":"), start) {
        None => false,
        Some(end) => {
            let name = json.substring_char(start, end);
            proof {
                assert(name@ =~= json@.subrange(start as int, end as int));
            }
            holds(
                json,
                join3("\"special_tokens\":{\"", name, "\":{\"id\":").as_str(),
            ) || holds(json, join3(",\"", name, "\":{\"id\":").as_str())
        },
    }
}

/// Whether the template in a post-processor's JSON can be applied to one text.
pub fn has_defined_template(json: &str) -> (r: bool)
    ensures
        r == template_is_defined(json@),
{
    let text = char_vec(json);
    let len: usize = text.len();
    let single = char_vec("\"single\":[");
    proof {
        reveal_strlit("\"single\":[");
    }
    match find(&text, &single) {
        None => {},
        Some(first) => match find_from(&text, &single, first + 1) {
            None => {
                proof {
                    assert forall|a: int, b: int| #[trigger]
                        occurs_at(json@, "\"single\":["@, a) && #[trigger] occurs_at(
                        json@,
                        "\"single\":["@,
                        b,
                    ) implies a == b by {}
                }
            },
            Some(second) => {
                return false;
            },
        },
    }
    let limit: usize = match find(&text, &char_vec("\"pair\":[")) {
        None => len,
        Some(at) => at,
    };
    let sequence = char_vec("{\"Sequence\":{\"id\":\"B\"");
    let token = char_vec("{\"SpecialToken\":{\"id\":\"");
    proof {
        reveal_strlit("{\"Sequence\":{\"id\":\"B\"");
        reveal_strlit("{\"SpecialToken\":{\"id\":\"");
        assert forall|at: int| 0 <= at < len implies (in_single(json@, at) <==> at <= limit) by {
            if at > limit {
                assert(occurs_at(json@, "\"pair\":["@, limit as int));
            }
        }
    }
    let mut at: usize = 0;
    while at < len && at <= limit
        invariant
            text@ == json@,
            len == text@.len(),
            sequence@ == "{\"Sequence\":{\"id\":\"B\""@,
            token@ == "{\"SpecialToken\":{\"id\":\""@,
            at <= len,
            forall|k: int|
                0 <= k < len ==> (#[trigger] in_single(json@, k) <==> k <= limit),
            forall|k: int|
                0 <= k < at ==> !#[trigger] occurs_at(
                    json@,
                    "{\"Sequence\":{\"id\":\"B\""@,
                    k,
                ),
            forall|k: int|
                0 <= k < at && #[trigger] occurs_at(
                    json@,
                    "{\"SpecialToken\":{\"id\":\""@,
                    k,
                ) ==> names_defined_token(
                    json@,
                    k + "{\"SpecialToken\":{\"id\":\""@.len(),
                ),
        decreases len - at,
    {
        assert(in_single(json@, at as int));
        if sequence.len() <= len - at && stands_at(&text, &sequence, at) {
            return false;
        }
        if token.len() <= len - at && stands_at(&text, &token, at) && !has_defined_name(
            json,
            &text,
            at + token.len(),
        ) {
            return false;
        }
        at += 1;
    }
    proof {
        assert forall|k: int| #[trigger]
            occurs_at(json@, "{\"Sequence\":{\"id\":\"B\""@, k) implies !in_single(
            json@,
            k,
        ) by {}
    }
    true
}

/// Whether every `stop` count in a decoder's JSON is zero.
pub fn every_stop_is_zero(json: &str) -> (r: bool)
    ensures
        r == cuts_no_ends(json@),
{
    let text = char_vec(json);
    let key = char_vec("\"stop\":");
    let len: usize = text.len();
    proof {
        reveal_strlit("\"stop\":");
        assert(key@.len() == 7);
    }
    let mut at: usize = 0;
    while at < len && len - at >= 7
        invariant
            text@ == json@,
            key@ == "\"stop\":"@,
            key@.len() == 7,
            len == text@.len(),
            at <= len,
            forall|k: int|
                0 <= k < at && #[trigger] occurs_at(json@, "\"stop\":"@, k) ==> k + 7 < json@.len()
                    && json@[k + 7] == '0',
        decreases len - at,
    {
        if stands_at(&text, &key, at) {
            if len - at == 7 || text[at + 7] != '0' {
                proof {
                    assert(occurs_at(json@, "\"stop\":"@, at as int));
                }
                return false;
            }
        }
        at += 1;
    }
    proof {
        assert forall|k: int| #[trigger] occurs_at(json@, "\"stop\":"@, k) implies k + 7
            < json@.len() && json@[k + 7] == '0' by {
            assert(0 <= k && k + 7 <= json@.len());
            assert(k < at);
        }
    }
    true
}

} // verus!
