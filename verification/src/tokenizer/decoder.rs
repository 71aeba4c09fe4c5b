//! Incremental decoding for token streaming.
//!
//! Decoding each new token on its own is wrong: a character may be split over
//! several tokens, and detokenization looks at the tokens around. The decoder
//! here decodes a window of recent tokens from a fixed anchor and emits what
//! extends past the bytes of that window it has already sent.

use crate::error::EngineError;
use crate::id::TokenId;
use crate::tokenizer::chars::{
    after_bytes, byte_len, char_vec, lemma_after_bytes, lemma_boundary, lemma_byte_len,
    lemma_encode_concat, tail_from, text_bytes,
};
use crate::tokenizer::hf::{text_of, Tokenizer};
use tokenizers::Tokenizer as HfTokenizer;
use vstd::prelude::*;
use vstd::slice::slice_subrange;
use vstd::string::*;
use vstd::utf8::{encode_utf8, is_char_boundary};

verus! {

/// The replacement character, which stands for bytes that form no character.
pub const REPLACEMENT: char = '\u{FFFD}';

/// Left context wide enough to cover any realistic character of several tokens
/// plus the detokenizer's own lookbehind.
pub const DEFAULT_WINDOW: usize = 16;

/// Emits text incrementally as tokens arrive, without corrupting multi-byte
/// characters or context-sensitive detokenization.
#[derive(Debug)]
pub struct IncrementalDecoder {
    /// Every token seen, needed because detokenization is context-sensitive.
    tokens: Vec<TokenId>,
    /// Text already handed to the caller.
    emitted: String,
    /// Tokens of left context the decoder re-examines each step.
    window: usize,
    /// First token of the current decode window.
    window_start: usize,
    /// Bytes of the current window's decode already emitted.
    window_emitted: usize,
    skip_special_tokens: bool,
}

/// What a decoder holds.
pub ghost struct DecoderModel {
    pub tokens: Seq<TokenId>,
    pub emitted: Seq<char>,
    pub window: int,
    pub start: int,
    pub sent: int,
    pub skip: bool,
}

/// Whether a text ends in a replacement character.
pub open spec fn unsettled(text: Seq<char>) -> bool {
    text.len() > 0 && text.last() == REPLACEMENT
}

/// A text without the replacement characters at its end.
pub open spec fn settled(text: Seq<char>) -> Seq<char>
    decreases text.len(),
{
    if unsettled(text) {
        settled(text.drop_last())
    } else {
        text
    }
}

/// How many characters two texts have in common from the beginning.
pub open spec fn common(a: Seq<char>, b: Seq<char>) -> int
    decreases a.len(),
{
    if a.len() > 0 && b.len() > 0 && a[0] == b[0] {
        1 + common(a.drop_first(), b.drop_first())
    } else {
        0
    }
}

impl View for IncrementalDecoder {
    type V = DecoderModel;

    closed spec fn view(&self) -> DecoderModel {
        DecoderModel {
            tokens: self.tokens@,
            emitted: self.emitted@,
            window: self.window as int,
            start: self.window_start as int,
            sent: self.window_emitted as int,
            skip: self.skip_special_tokens,
        }
    }
}

impl DecoderModel {
    /// A decoder that has seen no token.
    pub open spec fn fresh(skip: bool) -> DecoderModel {
        DecoderModel {
            tokens: Seq::empty(),
            emitted: Seq::empty(),
            window: DEFAULT_WINDOW as int,
            start: 0,
            sent: 0,
            skip,
        }
    }

    pub open spec fn wf(self) -> bool {
        &&& 0 <= self.start <= self.tokens.len()
        &&& 1 <= self.window
        &&& 0 <= self.sent
    }

    pub open spec fn with_token(self, token: TokenId) -> DecoderModel {
        DecoderModel { tokens: self.tokens.push(token), ..self }
    }

    /// The tokens of the current window.
    pub open spec fn window_tokens(self) -> Seq<TokenId> {
        self.tokens.skip(self.start)
    }

    /// Whether the window has grown past twice its target.
    pub open spec fn overgrown(self) -> bool {
        self.tokens.len() - self.start > 2 * self.window
    }

    /// The tokens that leave the window when it is cut to its target.
    pub open spec fn outgoing(self) -> Seq<TokenId> {
        self.tokens.subrange(self.start, self.tokens.len() - self.window)
    }

    /// The window cut to its target, where the outgoing tokens, whose text is
    /// `dropped`, decode cleanly and were emitted; else as it is.
    pub open spec fn rebased(self, dropped: Seq<char>) -> DecoderModel {
        if !unsettled(dropped) && self.sent >= byte_len(dropped) {
            DecoderModel {
                sent: self.sent - byte_len(dropped),
                start: self.tokens.len() - self.window,
                ..self
            }
        } else {
            self
        }
    }

    /// Whether what was sent of the window ends at a character of its text.
    pub open spec fn aligned(self, window_text: Seq<char>) -> bool {
        byte_len(window_text) > self.sent ==> is_char_boundary(
            encode_utf8(window_text),
            self.sent,
        )
    }

    /// What became stable with the window's text: all of it past what was
    /// sent, but for replacement characters at the end.
    pub open spec fn stable_part(self, window_text: Seq<char>) -> Seq<char> {
        if byte_len(window_text) <= self.sent {
            Seq::empty()
        } else {
            settled(after_bytes(window_text, self.sent))
        }
    }

    /// The decoder after it emitted what became stable.
    pub open spec fn emitting(self, window_text: Seq<char>) -> DecoderModel {
        let out = self.stable_part(window_text);
        DecoderModel {
            emitted: self.emitted + out,
            sent: self.sent + byte_len(out),
            ..self
        }
    }

    /// The decoder with a new token, its window cut if need be.
    pub open spec fn anchored(self, t: HfTokenizer, token: TokenId) -> Result<
        DecoderModel,
        Seq<char>,
    > {
        let m = self.with_token(token);
        if m.overgrown() {
            match text_of(t, m.outgoing(), m.skip) {
                Ok(dropped) => Ok(m.rebased(dropped)),
                Err(message) => Err(message),
            }
        } else {
            Ok(m)
        }
    }

    /// Whether decoding with a new token lets the emitted text be continued at
    /// a character.
    pub open spec fn continues(self, t: HfTokenizer, token: TokenId) -> bool {
        match self.anchored(t, token) {
            Ok(m) => match text_of(t, m.window_tokens(), m.skip) {
                Ok(text) => m.aligned(text),
                Err(_) => true,
            },
            Err(_) => true,
        }
    }

    /// What is left to emit once the whole text is known.
    pub open spec fn rest_of(self, full: Seq<char>) -> Seq<char> {
        full.skip(common(full, self.emitted))
    }

    /// The decoder at the end of generation.
    pub open spec fn completed(self, full: Seq<char>) -> DecoderModel {
        let tail = self.rest_of(full);
        if tail.len() == 0 {
            self
        } else {
            DecoderModel {
                emitted: full,
                sent: if self.sent + byte_len(tail) <= usize::MAX {
                    self.sent + byte_len(tail)
                } else {
                    usize::MAX as int
                },
                ..self
            }
        }
    }
}

pub proof fn lemma_settled(text: Seq<char>)
    ensures
        settled(text).len() <= text.len(),
        settled(text) == text.take(settled(text).len() as int),
        !unsettled(settled(text)),
        forall|i: int| settled(text).len() <= i < text.len() ==> text[i] == REPLACEMENT,
    decreases text.len(),
{
    if unsettled(text) {
        let d = text.drop_last();
        lemma_settled(d);
        assert(settled(text) =~= text.take(settled(text).len() as int));
        assert forall|i: int| settled(text).len() <= i < text.len() implies text[i]
            == REPLACEMENT by {
            if i < d.len() {
                assert(d[i] == text[i]);
            }
        }
    } else {
        assert(text.take(text.len() as int) =~= text);
    }
}

/// A beginning that does not end in a replacement character is a beginning of
/// the settled part.
pub proof fn lemma_settled_prefix(a: Seq<char>, text: Seq<char>)
    requires
        a.len() <= text.len(),
        a == text.take(a.len() as int),
        !unsettled(a),
    ensures
        a.len() <= settled(text).len(),
        a == settled(text).take(a.len() as int),
{
    lemma_settled(text);
    if a.len() > settled(text).len() {
        assert(text[a.len() - 1] == a.last());
    }
    assert(settled(text).take(a.len() as int) =~= a);
}

pub proof fn lemma_common(a: Seq<char>, b: Seq<char>)
    ensures
        0 <= common(a, b) <= a.len(),
        common(a, b) <= b.len(),
        a.take(common(a, b)) == b.take(common(a, b)),
        common(a, b) < a.len() && common(a, b) < b.len() ==> a[common(a, b)] != b[common(a, b)],
    decreases a.len(),
{
    if a.len() > 0 && b.len() > 0 && a[0] == b[0] {
        let x = a.drop_first();
        let y = b.drop_first();
        lemma_common(x, y);
        let n = common(x, y);
        assert forall|i: int| 0 <= i < n + 1 implies a[i] == b[i] by {
            if i > 0 {
                assert(x.take(n)[i - 1] == y.take(n)[i - 1]);
            }
        }
        assert(a.take(n + 1) =~= b.take(n + 1));
    } else {
        assert(a.take(0) =~= b.take(0));
    }
}

/// How many characters two texts have in common, determined by the first
/// difference.
proof fn lemma_common_is(a: Seq<char>, b: Seq<char>, n: int)
    requires
        0 <= n <= a.len(),
        n <= b.len(),
        a.take(n) == b.take(n),
        n == a.len() || n == b.len() || a[n] != b[n],
    ensures
        common(a, b) == n,
{
    lemma_common(a, b);
    let c = common(a, b);
    if c < n {
        assert(a.take(n)[c] == a[c]);
        assert(b.take(n)[c] == b[c]);
    } else if n < c {
        assert(a.take(c)[n] == a[n]);
        assert(b.take(c)[n] == b[n]);
    }
}

impl IncrementalDecoder {
    pub open spec fn wf(&self) -> bool {
        self@.wf()
    }

    pub fn new(skip_special_tokens: bool) -> (r: Self)
        ensures
            r.wf(),
            r@ == DecoderModel::fresh(skip_special_tokens),
    {
        IncrementalDecoder {
            tokens: Vec::new(),
            emitted: String::new(),
            window: DEFAULT_WINDOW,
            window_start: 0,
            window_emitted: 0,
            skip_special_tokens,
        }
    }

    /// Sets the left-context window, at least one token.
    pub fn with_window(self, window: usize) -> (r: Self)
        requires
            self.wf(),
        ensures
            r.wf(),
            r@ == (DecoderModel {
                window: if window >= 1 {
                    window as int
                } else {
                    1
                },
                ..self@
            }),
    {
        let mut d = self;
        d.window = if window >= 1 {
            window
        } else {
            1
        };
        d
    }

    /// Everything emitted so far.
    pub fn text(&self) -> (r: &str)
        ensures
            r@ == self@.emitted,
    {
        self.emitted.as_str()
    }

    pub fn num_tokens(&self) -> (r: usize)
        ensures
            r == self@.tokens.len(),
    {
        self.tokens.len()
    }

    /// Cuts the window to its target where the text of the outgoing tokens
    /// decodes cleanly and was emitted. The count of sent bytes is rebased, so
    /// that nothing is emitted twice.
    pub fn rebase(&mut self, dropped: &str)
        requires
            old(self).wf(),
            old(self)@.overgrown(),
        ensures
            final(self).wf(),
            final(self)@ == old(self)@.rebased(dropped@),
    {
        let bytes: usize = text_bytes(dropped);
        if !ends_unsettled(dropped) && self.window_emitted >= bytes {
            self.window_emitted = self.window_emitted - bytes;
            self.window_start = self.tokens.len() - self.window;
        }
    }

    /// Emits what became stable, given the text of the current window.
    ///
    /// A trailing replacement character is held back: the newest bytes do not
    /// form a complete character yet. It is not counted as sent, so once the
    /// character completes, the next text of this window yields it in full.
    pub fn accept_window(&mut self, window_text: &str) -> (r: String)
        requires
            old(self).wf(),
            old(self)@.aligned(window_text@),
        ensures
            final(self).wf(),
            r@ == old(self)@.stable_part(window_text@),
            final(self)@ == old(self)@.emitting(window_text@),
    {
        let ghost m = self@;
        let bytes: usize = text_bytes(window_text);
        if bytes <= self.window_emitted {
            proof {
                assert(m.emitted + Seq::<char>::empty() =~= m.emitted);
                lemma_byte_len(Seq::<char>::empty());
            }
            return String::new();
        }
        let delta = tail_from(window_text, self.window_emitted);
        let out = without_unsettled(delta);
        let out_bytes: usize = text_bytes(out.as_str());
        proof {
            lemma_settled(delta@);
            let n = out@.len() as int;
            assert(delta@.take(n) + delta@.skip(n) =~= delta@);
            lemma_encode_concat(delta@.take(n), delta@.skip(n));
            lemma_encode_concat(
                window_text@.take(window_text@.len() - delta@.len()),
                delta@,
            );
        }
        self.window_emitted = self.window_emitted + out_bytes;
        self.emitted.append(out.as_str());
        out
    }

    /// Adds a token and returns whatever text became stable.
    ///
    /// An empty text means "nothing to send yet" rather than end of stream.
    /// Where decoding fails, the token is kept.
    pub fn push(&mut self, tokenizer: &Tokenizer, token: TokenId) -> (r: Result<
        String,
        EngineError,
    >)
        requires
            old(self).wf(),
            old(self)@.continues(tokenizer.hf(), token),
        ensures
            final(self).wf(),
            match old(self)@.anchored(tokenizer.hf(), token) {
                Err(message) => {
                    &&& r matches Err(EngineError::Tokenizer(m)) && m@ == message
                    &&& final(self)@ == old(self)@.with_token(token)
                },
                Ok(m) => match text_of(tokenizer.hf(), m.window_tokens(), m.skip) {
                    Err(message) => {
                        &&& r matches Err(EngineError::Tokenizer(text)) && text@ == message
                        &&& final(self)@ == m
                    },
                    Ok(text) => {
                        &&& r matches Ok(out) && out@ == m.stable_part(text)
                        &&& final(self)@ == m.emitting(text)
                    },
                },
            },
    {
        self.tokens.push(token);
        let ghost m = self@;
        assert(m == old(self)@.with_token(token));
        let held: usize = self.tokens.len() - self.window_start;
        // Cut the window when it has grown past twice its target, so each step
        // stays proportional to the window rather than to all tokens.
        if (held - 1) / 2 >= self.window {
            let new_start: usize = self.tokens.len() - self.window;
            let outgoing = slice_subrange(
                self.tokens.as_slice(),
                self.window_start,
                new_start,
            );
            match tokenizer.try_decode(outgoing, self.skip_special_tokens) {
                Ok(dropped) => {
                    self.rebase(dropped.as_str());
                },
                Err(e) => {
                    return Err(e);
                },
            }
        }
        let ghost anchored = self@;
        let len: usize = self.tokens.len();
        let recent = slice_subrange(self.tokens.as_slice(), self.window_start, len);
        proof {
            assert(recent@ =~= anchored.window_tokens());
        }
        match tokenizer.try_decode(recent, self.skip_special_tokens) {
            Ok(window_text) => Ok(self.accept_window(window_text.as_str())),
            Err(e) => Err(e),
        }
    }

    /// As [`Self::push`], for a tokenizer of which nothing is known: answers
    /// `Ok(None)`, with the decoder unchanged, where its text for the window does
    /// not continue what was emitted at a character.
    pub fn try_push(&mut self, tokenizer: &Tokenizer, token: TokenId) -> (r: Result<
        Option<String>,
        EngineError,
    >)
        requires
            old(self).wf(),
        ensures
            final(self).wf(),
            !old(self)@.continues(tokenizer.hf(), token) ==> {
                &&& r matches Ok(None)
                &&& final(self)@ == old(self)@
            },
            old(self)@.continues(tokenizer.hf(), token) ==> match old(self)@.anchored(tokenizer.hf(), token) {
                Err(message) => {
                    &&& r matches Err(EngineError::Tokenizer(m)) && m@ == message
                    &&& final(self)@ == old(self)@.with_token(token)
                },
                Ok(m) => match text_of(tokenizer.hf(), m.window_tokens(), m.skip) {
                    Err(message) => {
                        &&& r matches Err(EngineError::Tokenizer(text)) && text@ == message
                        &&& final(self)@ == m
                    },
                    Ok(text) => {
                        &&& r matches Ok(Some(out)) && out@ == m.stable_part(text)
                        &&& final(self)@ == m.emitting(text)
                    },
                },
            },
    {
        if !self.can_continue(tokenizer, token) {
            return Ok(None);
        }
        match self.push(tokenizer, token) {
            Ok(out) => Ok(Some(out)),
            Err(e) => Err(e),
        }
    }

    /// Whether decoding with a new token lets the emitted text be continued.
    fn can_continue(&self, tokenizer: &Tokenizer, token: TokenId) -> (r: bool)
        requires
            self.wf(),
        ensures
            r == self@.continues(tokenizer.hf(), token),
    {
        let mut tokens: Vec<TokenId> = self.tokens.clone();
        tokens.push(token);
        let ghost m = self@.with_token(token);
        proof {
            assert(tokens@ =~= m.tokens);
        }
        let len: usize = tokens.len();
        let mut start: usize = self.window_start;
        let mut sent: usize = self.window_emitted;
        let held: usize = len - start;
        if (held - 1) / 2 >= self.window {
            let new_start: usize = len - self.window;
            let outgoing = slice_subrange(tokens.as_slice(), start, new_start);
            match tokenizer.try_decode(outgoing, self.skip_special_tokens) {
                Ok(dropped) => {
                    let bytes: usize = text_bytes(dropped.as_str());
                    if !ends_unsettled(dropped.as_str()) && sent >= bytes {
                        sent = sent - bytes;
                        start = new_start;
                    }
                },
                Err(_) => {
                    return true;
                },
            }
        }
        let recent = slice_subrange(tokens.as_slice(), start, len);
        let ghost anchored = self@.anchored(tokenizer.hf(), token)->Ok_0;
        proof {
            assert(recent@ =~= anchored.window_tokens());
        }
        match tokenizer.try_decode(recent, self.skip_special_tokens) {
            Ok(text) => text_bytes(text.as_str()) <= sent || text.as_str().is_char_boundary(sent),
            Err(_) => true,
        }
    }

    /// Emits everything past the point where the streamed output and the whole
    /// text agree.
    pub fn complete(&mut self, full: String) -> (r: String)
        requires
            old(self).wf(),
        ensures
            final(self).wf(),
            r@ == old(self)@.rest_of(full@),
            final(self)@ == old(self)@.completed(full@),
    {
        let ghost m = self@;
        let a = char_vec(full.as_str());
        let b = char_vec(self.emitted.as_str());
        let mut n: usize = 0;
        while n < a.len() && n < b.len() && a[n] == b[n]
            invariant
                a@ == full@,
                b@ == m.emitted,
                n <= a@.len(),
                n <= b@.len(),
                forall|k: int| 0 <= k < n ==> a@[k] == b@[k],
            decreases a@.len() - n,
        {
            n += 1;
        }
        proof {
            assert(a@.take(n as int) =~= b@.take(n as int));
            lemma_common_is(full@, m.emitted, n as int);
        }
        if n >= a.len() {
            proof {
                assert(m.rest_of(full@) =~= Seq::<char>::empty());
            }
            return String::new();
        }
        let tail = full.as_str().substring_char(n, a.len()).to_owned();
        let tail_bytes: usize = text_bytes(tail.as_str());
        proof {
            assert(tail@ =~= full@.skip(n as int));
        }
        self.emitted = full;
        self.window_emitted = self.window_emitted.saturating_add(tail_bytes);
        tail
    }

    /// Flushes any text held back, at end of generation.
    ///
    /// Whatever the tokenizer produces for the full token sequence is
    /// authoritative, so this emits everything past the point where the
    /// streamed output and the full decode agree.
    pub fn finish(&mut self, tokenizer: &Tokenizer) -> (r: Result<String, EngineError>)
        requires
            old(self).wf(),
        ensures
            final(self).wf(),
            match text_of(tokenizer.hf(), old(self)@.tokens, old(self)@.skip) {
                Err(message) => {
                    &&& r matches Err(EngineError::Tokenizer(m)) && m@ == message
                    &&& final(self)@ == old(self)@
                },
                Ok(full) => {
                    &&& r matches Ok(out) && out@ == old(self)@.rest_of(full)
                    &&& final(self)@ == old(self)@.completed(full)
                },
            },
    {
        match tokenizer.try_decode(self.tokens.as_slice(), self.skip_special_tokens) {
            Ok(full) => Ok(self.complete(full)),
            Err(e) => Err(e),
        }
    }
}

/// Whether a text ends in a replacement character.
fn ends_unsettled(text: &str) -> (r: bool)
    ensures
        r == unsettled(text@),
{
    let n: usize = text.unicode_len();
    n > 0 && text.get_char(n - 1) == REPLACEMENT
}

/// A text without the replacement characters at its end.
fn without_unsettled(text: &str) -> (r: String)
    ensures
        r@ == settled(text@),
{
    let chars = char_vec(text);
    let mut n: usize = chars.len();
    proof {
        assert(text@.take(n as int) =~= text@);
    }
    while n > 0 && chars[n - 1] == REPLACEMENT
        invariant
            chars@ == text@,
            n <= chars@.len(),
            settled(text@.take(n as int)) == settled(text@),
        decreases n,
    {
        proof {
            assert(text@.take(n as int).last() == chars@[n - 1]);
            assert(text@.take(n as int).drop_last() =~= text@.take(n - 1));
        }
        n -= 1;
    }
    let r = text.substring_char(0, n).to_owned();
    proof {
        assert(r@ =~= text@.take(n as int));
        if n > 0 {
            assert(text@.take(n as int).last() == chars@[n - 1]);
        }
    }
    r
}

// ----- what streaming promises ---------------------------------------------------

/// No emitted piece ends in a replacement character, so none ends in the
/// middle of a character.
pub proof fn law_no_piece_ends_mid_character(m: DecoderModel, window_text: Seq<char>)
    ensures
        !unsettled(m.stable_part(window_text)),
{
    if byte_len(window_text) > m.sent {
        lemma_settled(after_bytes(window_text, m.sent));
    }
}

/// The text emitted so far is the pieces emitted so far, in order.
pub proof fn law_pieces_make_up_the_text(m: DecoderModel, window_text: Seq<char>)
    ensures
        m.emitting(window_text).emitted == m.emitted + m.stable_part(window_text),
{
}

/// Whether a tokenizer's text for a run of tokens grows in a settled way: what
/// is settled stays when tokens follow, and from a clean end on, the rest
/// decodes as on its own. Tokenizers that decode bytes have this property.
pub open spec fn grows_settled(t: HfTokenizer, skip: bool) -> bool {
    &&& forall|a: Seq<TokenId>| #[trigger] text_of(t, a, skip) is Ok
    &&& forall|a: Seq<TokenId>, b: Seq<TokenId>|
        #![trigger text_of(t, a + b, skip)]
        {
            let x = text_of(t, a, skip)->Ok_0;
            let y = text_of(t, b, skip)->Ok_0;
            let z = text_of(t, a + b, skip)->Ok_0;
            &&& settled(x).len() <= z.len()
            &&& settled(x) == z.take(settled(x).len() as int)
            &&& !unsettled(x) ==> z == x + y
        }
}

/// Whether what was emitted is a settled beginning of the whole text, and what
/// was sent of the window is its part in the window.
pub open spec fn in_step(m: DecoderModel, t: HfTokenizer) -> bool {
    let full = text_of(t, m.tokens, m.skip)->Ok_0;
    let window = text_of(t, m.window_tokens(), m.skip)->Ok_0;
    &&& m.wf()
    &&& exists|before: Seq<char>, part: Seq<char>|
        {
            &&& full == #[trigger] (before + window)
            &&& m.emitted == #[trigger] (before + part)
            &&& !unsettled(part)
            &&& part.len() <= window.len()
            &&& part == window.take(part.len() as int)
            &&& m.sent == byte_len(part)
            &&& (m.start == 0 ==> before.len() == 0)
            &&& !unsettled(text_of(t, m.tokens.take(m.start), m.skip)->Ok_0)
            &&& before == text_of(t, m.tokens.take(m.start), m.skip)->Ok_0
        }
}

/// A fresh decoder is in step.
pub proof fn law_a_fresh_decoder_is_in_step(m: DecoderModel, t: HfTokenizer)
    requires
        m.wf(),
        m.tokens.len() == 0,
        m.emitted.len() == 0,
        m.start == 0,
        m.sent == 0,
        grows_settled(t, m.skip),
        text_of(t, Seq::<TokenId>::empty(), m.skip) == Ok::<Seq<char>, Seq<char>>(Seq::empty()),
    ensures
        in_step(m, t),
{
    let none = Seq::<char>::empty();
    assert(m.tokens =~= Seq::<TokenId>::empty());
    assert(m.window_tokens() =~= Seq::<TokenId>::empty());
    assert(m.tokens.take(0) =~= Seq::<TokenId>::empty());
    assert(none + none =~= none);
    assert(m.emitted =~= none + none);
    assert(none.take(0) =~= none);
    lemma_byte_len(none);
    let full = text_of(t, m.tokens, m.skip)->Ok_0;
    let window = text_of(t, m.window_tokens(), m.skip)->Ok_0;
    let gone = text_of(t, m.tokens.take(m.start), m.skip)->Ok_0;
    assert(full == none && window == none && gone == none);
    assert(none == none + window && m.emitted == none + none && !unsettled(none) && none
        == window.take(none.len() as int) && m.sent == byte_len(none));
}

/// A token keeps a decoder in step, whatever the window does, and its text can
/// always be continued.
pub proof fn law_streaming_stays_in_step(m: DecoderModel, t: HfTokenizer, token: TokenId)
    requires
        in_step(m, t),
        grows_settled(t, m.skip),
    ensures
        m.continues(t, token),
        ({
            let a = m.anchored(t, token)->Ok_0;
            let text = text_of(t, a.window_tokens(), a.skip)->Ok_0;
            &&& m.anchored(t, token) is Ok
            &&& in_step(a.emitting(text), t)
        }),
{
    let skip = m.skip;
    let w = m.with_token(token);
    let before = text_of(t, m.tokens.take(m.start), skip)->Ok_0;
    let window = text_of(t, m.window_tokens(), skip)->Ok_0;
    let part = choose|part: Seq<char>|
        {
            &&& m.emitted == #[trigger] (before + part)
            &&& !unsettled(part)
            &&& part.len() <= window.len()
            &&& part == window.take(part.len() as int)
            &&& m.sent == byte_len(part)
        };
    lemma_in_step_part(m, t);
    // The new window, before it is cut.
    assert(w.window_tokens() =~= m.window_tokens() + seq![token]);
    assert(w.tokens.take(m.start) =~= m.tokens.take(m.start));
    assert(w.tokens =~= m.tokens.take(m.start) + w.window_tokens());
    let wide = text_of(t, w.window_tokens(), skip)->Ok_0;
    let full = text_of(t, w.tokens, skip)->Ok_0;
    assert(text_of(t, m.window_tokens() + seq![token], skip) is Ok);
    assert(text_of(t, m.tokens.take(m.start) + w.window_tokens(), skip) is Ok);
    assert(full == before + wide);
    lemma_settled_prefix(part, window);
    lemma_settled(window);
    assert(part.len() <= wide.len());
    assert(part =~= wide.take(part.len() as int)) by {
        assert(settled(window) == wide.take(settled(window).len() as int));
        assert(part == settled(window).take(part.len() as int));
        assert(settled(window).take(part.len() as int) =~= wide.take(part.len() as int));
    }
    if w.overgrown() {
        lemma_cut_in_step(w, t, before, part, wide, full);
    } else {
        lemma_emit_in_step(w, t, before, part, wide, full);
    }
}

/// Cutting an overgrown window leaves a decoder whose text can be continued,
/// and emitting what became stable leaves it in step.
proof fn lemma_cut_in_step(
    w: DecoderModel,
    t: HfTokenizer,
    before: Seq<char>,
    part: Seq<char>,
    wide: Seq<char>,
    full: Seq<char>,
)
    requires
        grows_settled(t, w.skip),
        w.wf(),
        w.overgrown(),
        wide == text_of(t, w.window_tokens(), w.skip)->Ok_0,
        full == text_of(t, w.tokens, w.skip)->Ok_0,
        before == text_of(t, w.tokens.take(w.start), w.skip)->Ok_0,
        !unsettled(before),
        full == before + wide,
        w.emitted == before + part,
        !unsettled(part),
        part.len() <= wide.len(),
        part == wide.take(part.len() as int),
        w.sent == byte_len(part),
        w.start == 0 ==> before.len() == 0,
    ensures
        text_of(t, w.outgoing(), w.skip) is Ok,
        ({
            let a = w.rebased(text_of(t, w.outgoing(), w.skip)->Ok_0);
            let text = text_of(t, a.window_tokens(), w.skip)->Ok_0;
            &&& text_of(t, a.window_tokens(), w.skip) is Ok
            &&& a.aligned(text)
            &&& in_step(a.emitting(text), t)
        }),
{
    let skip = w.skip;
    let dropped = text_of(t, w.outgoing(), skip)->Ok_0;
    let a = w.rebased(dropped);
    if !unsettled(dropped) && w.sent >= byte_len(dropped) {
        let kept = w.tokens.skip(a.start);
        assert(w.window_tokens() =~= w.outgoing() + kept);
        assert(a.window_tokens() =~= kept);
        let narrow = text_of(t, kept, skip)->Ok_0;
        assert(text_of(t, w.outgoing() + kept, skip) is Ok);
        assert(wide == dropped + narrow);
        lemma_part_after(part, wide, dropped, narrow);
        let less = part.skip(dropped.len() as int);
        assert(w.tokens.take(a.start) =~= w.tokens.take(w.start) + w.outgoing());
        assert(text_of(t, w.tokens.take(w.start) + w.outgoing(), skip) is Ok);
        let gone = text_of(t, w.tokens.take(a.start), skip)->Ok_0;
        assert(gone == before + dropped);
        assert(full =~= gone + narrow);
        assert(w.emitted =~= gone + less) by {
            assert(part =~= dropped + less);
        }
        if gone.len() > 0 && dropped.len() > 0 {
            assert(gone.last() == dropped.last());
        } else if dropped.len() == 0 {
            assert(gone =~= before);
        }
        assert(!unsettled(gone));
        lemma_emit_in_step(a, t, gone, less, narrow, full);
    } else {
        assert(text_of(t, a.window_tokens(), skip) is Ok);
        lemma_emit_in_step(a, t, before, part, wide, full);
    }
}

/// The parts that a decoder in step consists of.
proof fn lemma_in_step_part(m: DecoderModel, t: HfTokenizer)
    requires
        in_step(m, t),
    ensures
        ({
            let before = text_of(t, m.tokens.take(m.start), m.skip)->Ok_0;
            let window = text_of(t, m.window_tokens(), m.skip)->Ok_0;
            let part = choose|part: Seq<char>|
                {
                    &&& m.emitted == #[trigger] (before + part)
                    &&& !unsettled(part)
                    &&& part.len() <= window.len()
                    &&& part == window.take(part.len() as int)
                    &&& m.sent == byte_len(part)
                };
            &&& m.emitted == before + part
            &&& !unsettled(part)
            &&& part.len() <= window.len()
            &&& part == window.take(part.len() as int)
            &&& m.sent == byte_len(part)
            &&& !unsettled(before)
            &&& text_of(t, m.tokens, m.skip)->Ok_0 == before + window
        }),
{
    let full = text_of(t, m.tokens, m.skip)->Ok_0;
    let window = text_of(t, m.window_tokens(), m.skip)->Ok_0;
    let (before, part) = choose|before: Seq<char>, part: Seq<char>|
        {
            &&& full == #[trigger] (before + window)
            &&& m.emitted == #[trigger] (before + part)
            &&& !unsettled(part)
            &&& part.len() <= window.len()
            &&& part == window.take(part.len() as int)
            &&& m.sent == byte_len(part)
            &&& (m.start == 0 ==> before.len() == 0)
            &&& !unsettled(text_of(t, m.tokens.take(m.start), m.skip)->Ok_0)
            &&& before == text_of(t, m.tokens.take(m.start), m.skip)->Ok_0
        };
    assert(m.emitted == before + part);
}

/// What remains of the sent part when the window is cut.
proof fn lemma_part_after(part: Seq<char>, wide: Seq<char>, dropped: Seq<char>, narrow: Seq<char>)
    requires
        wide == dropped + narrow,
        part.len() <= wide.len(),
        part == wide.take(part.len() as int),
        byte_len(part) >= byte_len(dropped),
        !unsettled(part),
    ensures
        dropped.len() <= part.len(),
        part == dropped + part.skip(dropped.len() as int),
        part.skip(dropped.len() as int).len() <= narrow.len(),
        part.skip(dropped.len() as int) == narrow.take(part.len() - dropped.len()),
        byte_len(part.skip(dropped.len() as int)) == byte_len(part) - byte_len(dropped),
        !unsettled(part.skip(dropped.len() as int)),
{
    if part.len() < dropped.len() {
        let rest = dropped.skip(part.len() as int);
        assert(dropped =~= part + rest) by {
            assert(part =~= dropped.take(part.len() as int));
        }
        lemma_encode_concat(part, rest);
        lemma_byte_len(rest);
        assert(false);
    }
    let less = part.skip(dropped.len() as int);
    assert(part =~= dropped + less);
    lemma_encode_concat(dropped, less);
    assert(less =~= narrow.take(part.len() - dropped.len()));
    if less.len() > 0 {
        assert(less.last() == part.last());
    }
}

/// What becomes stable with a window's text, where a settled part of it was
/// sent, continues that part to a longer settled one.
proof fn lemma_stable_part(a: DecoderModel, part: Seq<char>, text: Seq<char>)
    requires
        !unsettled(part),
        part.len() <= text.len(),
        part == text.take(part.len() as int),
        a.sent == byte_len(part),
    ensures
        a.aligned(text),
        ({
            let more = part + a.stable_part(text);
            &&& !unsettled(more)
            &&& more.len() <= text.len()
            &&& more == text.take(more.len() as int)
            &&& byte_len(more) == a.sent + byte_len(a.stable_part(text))
        }),
{
    let rest = text.skip(part.len() as int);
    let out = a.stable_part(text);
    assert(text =~= part + rest);
    lemma_settled(rest);
    assert(out == settled(rest)) by {
        lemma_encode_concat(part, rest);
        lemma_after_bytes(part, rest);
        lemma_byte_len(rest);
        if byte_len(text) <= a.sent {
            assert(rest.len() == 0);
            assert(settled(rest) =~= Seq::<char>::empty());
        }
    }
    assert(a.aligned(text)) by {
        lemma_boundary(part, rest);
    }
    let more = part + out;
    assert(byte_len(more) == a.sent + byte_len(out)) by {
        lemma_encode_concat(part, out);
    }
    assert(more =~= text.take(more.len() as int)) by {
        assert(out =~= rest.take(out.len() as int));
    }
    if out.len() > 0 {
        assert(more.last() == out.last());
    } else {
        assert(more =~= part);
    }
}

/// Emitting what became stable leaves a decoder in step.
proof fn lemma_emit_in_step(
    a: DecoderModel,
    t: HfTokenizer,
    before: Seq<char>,
    part: Seq<char>,
    text: Seq<char>,
    full: Seq<char>,
)
    requires
        a.wf(),
        text == text_of(t, a.window_tokens(), a.skip)->Ok_0,
        full == text_of(t, a.tokens, a.skip)->Ok_0,
        before == text_of(t, a.tokens.take(a.start), a.skip)->Ok_0,
        !unsettled(before),
        full == before + text,
        a.emitted == before + part,
        !unsettled(part),
        part.len() <= text.len(),
        part == text.take(part.len() as int),
        a.sent == byte_len(part),
        a.start == 0 ==> before.len() == 0,
    ensures
        a.aligned(text),
        in_step(a.emitting(text), t),
{
    lemma_stable_part(a, part, text);
    let e = a.emitting(text);
    let more = part + a.stable_part(text);
    assert(e.emitted =~= before + more);
    assert(e.window_tokens() == a.window_tokens());
    assert(full == before + text && e.emitted == before + more);
}

/// Streaming reproduces the batch decode: for a decoder in step, the text
/// emitted so far and what finishing adds to it are exactly the text of all
/// tokens, and that is the decoder's text afterwards.
pub proof fn law_streaming_reproduces_the_whole_text(m: DecoderModel, t: HfTokenizer)
    requires
        in_step(m, t),
    ensures
        ({
            let full = text_of(t, m.tokens, m.skip)->Ok_0;
            &&& m.emitted + m.rest_of(full) == full
            &&& m.completed(full).emitted == full
        }),
{
    lemma_in_step_part(m, t);
    let full = text_of(t, m.tokens, m.skip)->Ok_0;
    let n = m.emitted.len() as int;
    assert(full.take(n) =~= m.emitted);
    assert(m.emitted.take(n) =~= m.emitted);
    lemma_common_is(full, m.emitted, n);
    assert(m.emitted + full.skip(n) =~= full);
    if full.skip(n).len() == 0 {
        assert(full =~= m.emitted);
    }
}

/// Finishing a second time adds nothing.
pub proof fn law_finishing_is_idempotent(m: DecoderModel, full: Seq<char>)
    ensures
        m.completed(full).rest_of(full) == Seq::<char>::empty(),
        m.completed(full).completed(full) == m.completed(full),
{
    let c = m.completed(full);
    lemma_common(full, m.emitted);
    if m.rest_of(full).len() > 0 {
        lemma_common_is(full, full, full.len() as int);
    }
    assert(c.rest_of(full) =~= Seq::<char>::empty());
}

} // verus!
