//! What is shown, held back and emitted of a text, said of the text itself.

use crate::tokenizer::chars::{byte_len, lemma_after_bytes, occurs, occurs_at};
use crate::tokenizer::decoder::{
    common, lemma_common, lemma_settled, settled, unsettled, DecoderModel,
};
use crate::tokenizer::hf::{
    cuts_no_ends, decoded, decoder_json, decodes_nothing_too, matches_forward, text_of,
};
use crate::tokenizer::stop::{
    begins_stop, first_found, first_stop, lemma_unheld, longest, none_found, retained, stop_stands_at, unheld,
    visible,
};
use tokenizers::Tokenizer as HfTokenizer;
use vstd::prelude::*;

verus! {

// ----- stop strings ---------------------------------------------------------------

proof fn lemma_first_stop(sequences: Seq<Seq<char>>, text: Seq<char>, from: int, k: int)
    requires
        0 <= from <= k < text.len(),
        stop_stands_at(sequences, text, k),
        forall|j: int| from <= j < k ==> !#[trigger] stop_stands_at(sequences, text, j),
    ensures
        first_stop(sequences, text, from) == k,
    decreases k - from,
{
    if from < k {
        assert(!stop_stands_at(sequences, text, from));
        lemma_first_stop(sequences, text, from + 1, k);
    }
}

/// What is shown of a text is all of it before the first place where a stop string
/// stands: nothing that comes before that place is cut off.
pub proof fn law_all_before_the_first_stop_is_shown(
    sequences: Seq<Seq<char>>,
    text: Seq<char>,
    i: int,
    k: int,
)
    requires
        0 <= i < sequences.len(),
        0 <= k,
        sequences[i].len() > 0,
        k + sequences[i].len() <= text.len(),
        text.subrange(k, k + sequences[i].len()) == sequences[i],
        forall|j: int| 0 <= j < k ==> !#[trigger] stop_stands_at(sequences, text, j),
    ensures
        visible(sequences, text) == text.take(k),
        visible(sequences, text).len() == k,
{
    assert(occurs_at(text, sequences[i], k));
    assert(stop_stands_at(sequences, text, k));
    lemma_first_stop(sequences, text, 0, k);
}

/// A stop string stands at a place exactly where the text goes on with one of them
/// from there; it is found in a text exactly where it stands at some place.
pub proof fn law_stop_strings_stand_where_the_text_has_them(
    sequences: Seq<Seq<char>>,
    text: Seq<char>,
    i: int,
    k: int,
)
    requires
        0 <= i < sequences.len(),
        0 <= k <= text.len(),
    ensures
        k + sequences[i].len() <= text.len() && text.subrange(k, k + sequences[i].len())
            == sequences[i] ==> stop_stands_at(sequences, text, k) && occurs(text, sequences[i])
            && !none_found(sequences, text),
        first_found(sequences, text, i) ==> occurs(text, sequences[i]) && forall|j: int|
            0 <= j < i ==> !occurs(text, #[trigger] sequences[j]),
{
    if k + sequences[i].len() <= text.len() && text.subrange(k, k + sequences[i].len())
        == sequences[i] {
        assert(occurs_at(text, sequences[i], k));
    }
}

proof fn lemma_unheld_begins(sequences: Seq<Seq<char>>, text: Seq<char>, k: int)
    requires
        0 <= k <= text.len(),
    ensures
        unheld(sequences, text, k) < text.len() ==> begins_stop(
            sequences,
            text.skip(unheld(sequences, text, k)),
        ),
    decreases text.len() - k,
{
    if k < text.len() && !begins_stop(sequences, text.skip(k)) {
        lemma_unheld_begins(sequences, text, k + 1);
    }
}

/// No more is held back than may begin a stop string: what is held back is the
/// longest end of the text that is a beginning of one, and nothing where no end is.
pub proof fn law_only_a_possible_stop_is_held_back(sequences: Seq<Seq<char>>, text: Seq<char>)
    ensures
        0 <= unheld(sequences, text, 0) <= text.len(),
        unheld(sequences, text, 0) < text.len() ==> begins_stop(
            sequences,
            text.skip(unheld(sequences, text, 0)),
        ),
        forall|m: int|
            0 <= m < unheld(sequences, text, 0) ==> !begins_stop(
                sequences,
                #[trigger] text.skip(m),
            ),
        (forall|m: int| 0 <= m < text.len() ==> !begins_stop(sequences, #[trigger] text.skip(m)))
            ==> unheld(sequences, text, 0) == text.len(),
{
    lemma_unheld(sequences, text, 0);
    lemma_unheld_begins(sequences, text, 0);
}

/// A text may begin a stop string exactly where it is a part of one, from its
/// start, and not the whole.
pub proof fn law_beginnings_of_stop_strings(sequences: Seq<Seq<char>>, i: int, n: int)
    requires
        0 <= i < sequences.len(),
        0 <= n < sequences[i].len(),
    ensures
        begins_stop(sequences, sequences[i].take(n)),
        sequences.len() == 1 ==> !begins_stop(sequences, sequences[i]),
{
    let tail = sequences[i].take(n);
    assert(sequences[i].take(tail.len() as int) =~= tail);
    assert(crate::tokenizer::stop::begins(sequences[i], tail));
}

/// A short text is kept whole for the next piece.
pub proof fn law_short_texts_are_retained_whole(text: Seq<char>, max_len: int, tail: Seq<char>)
    requires
        retained(text, max_len, tail),
    ensures
        byte_len(text) <= 2 * max_len ==> tail == text,
        byte_len(text) > 2 * max_len ==> exists|n: int|
            0 <= n <= text.len() && tail == #[trigger] text.skip(n) && byte_len(text.take(n))
                <= byte_len(text) - max_len,
{
}

// ----- incremental decoding -------------------------------------------------------

/// What becomes stable of a window is all that follows what was sent, but for
/// replacement characters at its very end.
pub proof fn law_all_but_unfinished_characters_is_emitted(
    m: DecoderModel,
    sent: Seq<char>,
    rest: Seq<char>,
)
    requires
        m.sent == byte_len(sent),
    ensures
        ({
            let piece = m.stable_part(sent + rest);
            &&& piece.len() <= rest.len()
            &&& piece == rest.take(piece.len() as int)
            &&& piece.len() > 0 ==> piece.last() != '\u{FFFD}'
            &&& forall|i: int| piece.len() <= i < rest.len() ==> rest[i] == '\u{FFFD}'
            &&& m.emitting(sent + rest).emitted == m.emitted + piece
            &&& m.emitting(sent + rest).sent == m.sent + byte_len(piece)
            &&& m.emitting(sent + rest).tokens == m.tokens
        }),
{
    crate::tokenizer::chars::lemma_encode_concat(sent, rest);
    crate::tokenizer::chars::lemma_byte_len(rest);
    lemma_after_bytes(sent, rest);
    lemma_settled(rest);
    if byte_len(sent + rest) <= m.sent {
        assert(rest.len() == 0);
    } else {
        assert(m.stable_part(sent + rest) == settled(rest));
    }
}

/// At the end everything that continues the emitted text is emitted.
pub proof fn law_the_end_emits_the_rest(m: DecoderModel, rest: Seq<char>)
    ensures
        m.rest_of(m.emitted + rest) == rest,
        rest.len() > 0 ==> m.completed(m.emitted + rest).emitted == m.emitted + rest,
        rest.len() == 0 ==> m.completed(m.emitted + rest) == m,
{
    let full = m.emitted + rest;
    lemma_common(full, m.emitted);
    let n = common(full, m.emitted);
    if n < m.emitted.len() {
        assert(full[n] == m.emitted[n]);
    }
    assert(n == m.emitted.len());
    assert(full.skip(n) =~= rest);
}

/// A window that has grown past twice its target is cut to it, where the tokens that
/// leave it decode to a finished text that was sent; the text sent of the rest is
/// what was sent less that.
pub proof fn law_overgrown_windows_are_cut(m: DecoderModel, dropped: Seq<char>)
    ensures
        m.overgrown() <==> m.tokens.len() - m.start > 2 * m.window,
        !unsettled(dropped) && byte_len(dropped) <= m.sent ==> {
            let r = m.rebased(dropped);
            &&& r.tokens.len() - r.start == m.window
            &&& r.sent + byte_len(dropped) == m.sent
            &&& r.tokens == m.tokens
            &&& r.emitted == m.emitted
            &&& r.window == m.window
        },
        unsettled(dropped) || byte_len(dropped) > m.sent ==> m.rebased(dropped) == m,
        0 <= m.window && 0 <= m.start <= m.tokens.len() - m.window ==> m.outgoing() + m.tokens.skip(
            m.tokens.len() - m.window,
        ) == m.tokens.skip(m.start),
{
    if 0 <= m.start <= m.tokens.len() - m.window && m.window >= 0 {
        assert(m.outgoing() + m.tokens.skip(m.tokens.len() - m.window) =~= m.tokens.skip(
            m.start,
        ));
    }
}

/// The text of a run of tokens is what the tokenizer decodes of exactly these
/// tokens, wherever decoding is defined.
pub proof fn law_texts_are_what_is_decoded(t: HfTokenizer, ids: Seq<u32>, skip: bool)
    ensures
        cuts_no_ends(decoder_json(t)) && matches_forward(decoder_json(t)) && decodes_nothing_too(
            decoder_json(t),
        ) ==> text_of(t, ids, skip) == decoded(t, ids, skip),
{
}

/// The longest stop string is at least as long as each, and as long as one of them.
pub proof fn law_the_longest_is_one_of_them(sequences: Seq<Seq<char>>, i: int)
    ensures
        0 <= i < sequences.len() ==> byte_len(sequences[i]) <= longest(sequences),
        sequences.len() == 0 ==> longest(sequences) == 0,
        sequences.len() > 0 ==> exists|k: int|
            0 <= k < sequences.len() && byte_len(#[trigger] sequences[k]) == longest(sequences),
    decreases sequences.len(),
{
    if 0 <= i < sequences.len() {
        crate::tokenizer::stop::lemma_longest(sequences, i);
    }
    if sequences.len() > 0 {
        let front = sequences.drop_last();
        law_the_longest_is_one_of_them(front, 0);
        if longest(sequences) == byte_len(sequences.last()) {
            assert(byte_len(sequences[sequences.len() - 1]) == longest(sequences));
        } else {
            let k = choose|k: int|
                0 <= k < front.len() && byte_len(#[trigger] front[k]) == longest(front);
            assert(byte_len(sequences[k]) == longest(sequences));
        }
    }
}

/// A new decoder has seen and emitted nothing, and looks back sixteen tokens.
pub proof fn law_a_new_decoder_is_empty(skip: bool)
    ensures
        DecoderModel::fresh(skip).tokens.len() == 0,
        DecoderModel::fresh(skip).emitted.len() == 0,
        DecoderModel::fresh(skip).window == 16,
        DecoderModel::fresh(skip).start == 0,
        DecoderModel::fresh(skip).sent == 0,
        DecoderModel::fresh(skip).skip == skip,
{
}

} // verus!
