//! What clients are shown: prompts from their messages, statuses and bodies from
//! errors, and responses from pieces of text.

use crate::api::responses::{
    as_pairs, chunk_frame, larger, next_count, piece_of, piece_stops, progress_on, renders, single_prompt,
    tail_of, CollectorModel, StreamModel, DONE_SENTINEL,
};
use crate::api::types::{
    hex_digit, ApiError, ChatCompletionChunk, ChatMessage, ErrorResponse, PromptField, StopField,
};
use crate::error::EngineError;
use crate::id::TokenId;
use crate::tokenizer::chars::{byte_len, occurs, occurs_at};
use crate::tokenizer::decoder::DecoderModel;
use crate::tokenizer::effects::{
    law_all_but_unfinished_characters_is_emitted, law_the_end_emits_the_rest,
};
use crate::tokenizer::hf::{text_of, Tokenizer};
use crate::tokenizer::stop::{unheld, visible, MatcherModel};
use crate::tokenizer::template::ChatTemplate;
use vstd::prelude::*;

verus! {

// ----- prompts --------------------------------------------------------------------

/// The text of a message, empty where it has none.
pub open spec fn said(m: ChatMessage) -> Seq<char> {
    match m.content {
        Some(c) => c@,
        None => Seq::empty(),
    }
}

/// The prompt of a chat of one message: its role in the header, its content behind
/// it, the end mark, and the opening of the assistant's turn.
pub proof fn law_a_chat_of_one_message(m: ChatMessage, text: Seq<char>)
    ensures
        renders(ChatTemplate::Llama3, seq![m], text) ==> text == "<|start_header_id|>"@ + m.role@
            + "<|end_header_id|>\n\n"@ + said(m) + "<|eot_id|>"@
            + "<|start_header_id|>assistant<|end_header_id|>\n\n"@,
        renders(ChatTemplate::ChatMl, seq![m], text) ==> text == "<|im_start|>"@ + m.role@ + "\n"@
            + said(m) + "<|im_end|>\n"@ + "<|im_start|>assistant\n"@,
        renders(ChatTemplate::Plain, seq![m], text) ==> text == said(m) + "\n"@,
{
    if renders(ChatTemplate::Llama3, seq![m], text) {
        lemma_one(ChatTemplate::Llama3, m, text);
    }
    if renders(ChatTemplate::ChatMl, seq![m], text) {
        lemma_one(ChatTemplate::ChatMl, m, text);
    }
    if renders(ChatTemplate::Plain, seq![m], text) {
        lemma_one(ChatTemplate::Plain, m, text);
        assert(text =~= said(m) + "\n"@);
    }
}

proof fn lemma_one(t: ChatTemplate, m: ChatMessage, text: Seq<char>)
    requires
        renders(t, seq![m], text),
    ensures
        text == t.turn(m.role@, said(m)) + t.opening(),
{
    let pairs = choose|pairs: Seq<(String, String)>| #[trigger]
        as_pairs(seq![m], pairs) && text == t.turns(pairs) + t.opening();
    assert(pairs[0].0@ == seq![m][0].role@);
    assert(t.turns(pairs.drop_last()) =~= Seq::empty());
    assert(t.turns(pairs) =~= t.turn(pairs[0].0@, pairs[0].1@));
}

/// Messages are rendered in their order: the pairs that a template gets are the
/// roles and contents one by one.
pub proof fn law_messages_keep_their_order(
    messages: Seq<ChatMessage>,
    pairs: Seq<(String, String)>,
    i: int,
)
    requires
        as_pairs(messages, pairs),
        0 <= i < messages.len(),
    ensures
        pairs.len() == messages.len(),
        pairs[i].0@ == messages[i].role@,
        pairs[i].1@ == said(messages[i]),
{
}

/// A prompt is one text, or a list of exactly one.
pub proof fn law_single_prompts(one: String, many: Vec<String>)
    ensures
        single_prompt(PromptField::Single(one)) == Some(one@),
        many@.len() == 1 ==> single_prompt(PromptField::Multiple(many)) == Some(many@[0]@),
        many@.len() != 1 ==> single_prompt(PromptField::Multiple(many)) is None,
        StopField::Single(one).items() == seq![one],
        StopField::Multiple(many).items() == many@,
{
}

// ----- errors ---------------------------------------------------------------------

/// The HTTP status of each kind of error.
pub proof fn law_statuses_by_kind(e: EngineError)
    ensures
        e is InvalidRequest ==> ApiError::code(e) == 400,
        e is ContextLengthExceeded ==> ApiError::code(e) == 400,
        e is Tokenizer ==> ApiError::code(e) == 400,
        e is QueueFull ==> ApiError::code(e) == 429,
        e is Cancelled ==> ApiError::code(e) == 499,
        e is CacheExhausted ==> ApiError::code(e) == 503,
        e is EngineShutdown ==> ApiError::code(e) == 503,
        e is Timeout ==> ApiError::code(e) == 504,
        e is Backend ==> ApiError::code(e) == 500,
        e is Internal ==> ApiError::code(e) == 500,
{
}

/// What a client reads of an error: its class, and its own text unless it is
/// internal.
pub proof fn law_clients_read_the_class_of_an_error(e: EngineError)
    ensures
        e is InvalidRequest || e is ContextLengthExceeded || e is Cancelled
            ==> ErrorResponse::client_kind(e) == "invalid_request_error"@,
        e is QueueFull || e is CacheExhausted ==> ErrorResponse::client_kind(e)
            == "server_overloaded"@,
        e is Timeout || e is Tokenizer || e is Backend || e is EngineShutdown || e is Internal
            ==> ErrorResponse::client_kind(e) == "server_error"@,
        e is Internal ==> ErrorResponse::client_message(e) == "internal server error"@,
        !(e is Internal) ==> ErrorResponse::client_message(e) == e.text(),
{
}

/// The digits of identifiers.
pub proof fn law_hexadecimal_digits(c: char)
    ensures
        hex_digit(c) <==> ('0' as int <= c as int <= '9' as int) || ('a' as int <= c as int
            <= 'f' as int),
{
}

// ----- collecting -----------------------------------------------------------------

/// A piece ends a response exactly where some stop string is in the text that the
/// matcher remembers with the piece behind it.
pub proof fn law_pieces_end_a_response_at_a_stop_string(
    stop: MatcherModel,
    piece: Seq<char>,
    i: int,
    at: int,
)
    ensures
        0 <= i < stop.sequences.len() && piece.len() > 0 && occurs_at(
            stop.buffer + piece,
            stop.sequences[i],
            at,
        ) ==> piece_stops(stop, piece) && progress_on(stop, piece) is Complete,
        piece_stops(stop, piece) ==> exists|k: int|
            0 <= k < stop.sequences.len() && occurs(stop.buffer + piece, #[trigger] stop.sequences[k]),
        !piece_stops(stop, piece) ==> progress_on(stop, piece) is More,
        stop.sequences.len() == 0 ==> !piece_stops(stop, piece),
{
    if 0 <= i < stop.sequences.len() && piece.len() > 0 && occurs_at(
        stop.buffer + piece,
        stop.sequences[i],
        at,
    ) {
        assert(occurs(stop.buffer + piece, stop.sequences[i]));
    }
    if piece_stops(stop, piece) {
        let k = choose|k: int|
            0 <= k < stop.sequences.len() && occurs(
                stop.buffer + piece,
                #[trigger] stop.sequences[k],
            );
        assert(occurs(stop.buffer + piece, stop.sequences[k]));
    }
}

/// A collected piece goes behind the text so far and counts one token; it ends the
/// response for a stop where it completes a stop string, and else leaves its end as
/// it was.
pub proof fn law_a_collected_piece_is_appended(
    c: CollectorModel,
    piece: Seq<char>,
    after: CollectorModel,
)
    requires
        c.collects(piece, after),
    ensures
        after.text == c.text + piece,
        c.tokens < usize::MAX ==> after.tokens == c.tokens + 1,
        piece_stops(c.stop, piece) ==> after.finish is Stop,
        !piece_stops(c.stop, piece) ==> after.finish == c.finish,
        after.stop.sequences == c.stop.sequences,
{
}

/// A streamed piece counts one token and ends the stream in the same way; what is
/// sent and what is held back are together the text held before and the piece,
/// unless a stop string ends it.
pub proof fn law_a_streamed_piece_is_sent_or_held(
    s: StreamModel,
    piece: Seq<char>,
    after: StreamModel,
)
    requires
        s.streams(piece, after),
    ensures
        after.sent == s.sent + s.content_on(piece),
        !piece_stops(s.stop, piece) ==> after.sent + after.held == s.sent + s.held + piece,
        piece_stops(s.stop, piece) ==> after.held.len() == 0,
        s.tokens < usize::MAX ==> after.tokens == s.tokens + 1,
        piece_stops(s.stop, piece) ==> after.finish is Stop,
        !piece_stops(s.stop, piece) ==> after.finish == s.finish,
        after.id == s.id,
        after.created == s.created,
        after.model == s.model,
{
    if !piece_stops(s.stop, piece) {
        let pending = s.held + piece;
        crate::tokenizer::stop::lemma_unheld(s.stop.sequences, pending, 0);
        assert(after.sent + after.held =~= s.sent + s.held + piece);
    }
}

/// While the window has room for a token, its piece is what the text of the window
/// with the token adds to what was sent, but for unfinished characters at the end.
pub proof fn law_a_token_yields_what_its_window_adds(
    m: DecoderModel,
    tokenizer: Tokenizer,
    token: TokenId,
    sent: Seq<char>,
    rest: Seq<char>,
)
    requires
        m.wf(),
        m.tokens.len() + 1 - m.start <= 2 * m.window,
        text_of(tokenizer.hf(), m.tokens.skip(m.start).push(token), m.skip) == Ok::<
            Seq<char>,
            Seq<char>,
        >(sent + rest),
        byte_len(sent) == m.sent,
    ensures
        ({
            let piece = piece_of(m, tokenizer, token);
            &&& piece matches Some(Ok(p)) && p.len() <= rest.len() && p == rest.take(p.len() as int)
                && (p.len() > 0 ==> p.last() != '\u{FFFD}') && forall|i: int|
                p.len() <= i < rest.len() ==> rest[i] == '\u{FFFD}'
        }),
{
    let a = m.with_token(token);
    assert(a.tokens.skip(a.start) =~= m.tokens.skip(m.start).push(token));
    law_all_but_unfinished_characters_is_emitted(a, sent, rest);
    crate::tokenizer::chars::lemma_boundary(sent, rest);
}

/// The end of generation yields what the text of all tokens adds to what was
/// emitted.
pub proof fn law_the_end_yields_the_rest(m: DecoderModel, tokenizer: Tokenizer, rest: Seq<char>)
    requires
        text_of(tokenizer.hf(), m.tokens, m.skip) == Ok::<Seq<char>, Seq<char>>(m.emitted + rest),
    ensures
        tail_of(m, tokenizer) == Ok::<Seq<char>, Seq<char>>(rest),
{
    law_the_end_emits_the_rest(m, rest);
}

/// All text that cannot begin a stop string is sent at once: what is held back of a
/// piece is the longest end that may begin one, and what a stop string ends is sent
/// up to it.
pub proof fn law_text_is_sent_as_soon_as_it_can_be(s: StreamModel, piece: Seq<char>)
    ensures
        !piece_stops(s.stop, piece) ==> {
            let pending = s.held + piece;
            let n = unheld(s.stop.sequences, pending, 0);
            &&& s.content_on(piece) == pending.take(n)
            &&& s.held_on(piece) == pending.skip(n)
        },
        piece_stops(s.stop, piece) ==> s.content_on(piece) == visible(
            s.stop.sequences,
            s.held + piece,
        ) && s.held_on(piece).len() == 0,
        s.content_at_end(piece) == visible(s.stop.sequences, s.held + piece),
{
}

/// A chunk is one of its response and carries its text and nothing else; there is
/// none exactly where there is no text to send.
pub proof fn law_chunks_carry_their_text(
    s: StreamModel,
    c: Option<ChatCompletionChunk>,
    content: Seq<char>,
)
    requires
        s.sends(c, content),
    ensures
        c is Some <==> content.len() > 0,
        c matches Some(k) ==> {
            &&& k.id@ == s.id
            &&& k.object@ == "chat.completion.chunk"@
            &&& k.created == s.created
            &&& k.model@ == s.model
            &&& k.choices@.len() == 1
            &&& k.choices@[0].index == 0
            &&& k.choices@[0].delta.role is None
            &&& k.choices@[0].delta.content matches Some(t) && t@ == content
            &&& k.choices@[0].finish_reason is None
            &&& k.usage is None
        },
{
}

/// What every chunk of a response has in common.
pub proof fn law_chunks_name_their_response(
    c: ChatCompletionChunk,
    id: Seq<char>,
    created: u64,
    model: Seq<char>,
)
    requires
        chunk_frame(c, id, created, model),
    ensures
        c.id@ == id,
        c.object@ == "chat.completion.chunk"@,
        c.created == created,
        c.model@ == model,
        c.choices@.len() == 1,
        c.choices@[0].index == 0,
{
}

/// Counts go up by one, and of two counts the larger is reported.
pub proof fn law_counts(a: usize, b: usize)
    ensures
        a < usize::MAX ==> next_count(a) == a + 1,
        larger(a, b) >= a,
        larger(a, b) >= b,
        larger(a, b) == a || larger(a, b) == b,
{
}

/// The line that ends a stream.
pub proof fn law_streams_end_with_a_sentinel()
    ensures
        DONE_SENTINEL@ == "[DONE]"@,
{
}

} // verus!
