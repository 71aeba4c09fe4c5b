//! Stop strings.

use crate::tokenizer::chars::{
    byte_len, char_vec, find, lemma_boundary, lemma_boundary_splits, lemma_byte_len,
    lemma_encode_concat, occurs, occurs_at, tail_from, text_bytes,
};
use vstd::prelude::*;
use vstd::string::*;
use vstd::utf8::{
    encode_utf8, encode_utf8_valid_utf8, is_char_boundary, is_char_boundary_start_end_of_seq,
};

verus! {

/// Tracks whether any caller-supplied stop string has appeared in the output.
///
/// Matching is over the accumulated text rather than over tokens, because a
/// stop string need not align with token boundaries.
#[derive(Debug, Clone)]
pub struct StopSequenceMatcher {
    sequences: Vec<String>,
    /// Bytes of the longest stop string, bounding how much tail text must be
    /// retained.
    max_len: usize,
    buffer: String,
}

/// What a matcher holds.
pub ghost struct MatcherModel {
    pub sequences: Seq<Seq<char>>,
    pub max_len: int,
    pub buffer: Seq<char>,
}

/// The texts of strings.
pub open spec fn texts(strings: Seq<String>) -> Seq<Seq<char>> {
    strings.map_values(|s: String| s@)
}

/// The bytes of the longest text.
pub open spec fn longest(sequences: Seq<Seq<char>>) -> int
    decreases sequences.len(),
{
    if sequences.len() == 0 {
        0
    } else {
        let front = longest(sequences.drop_last());
        let last = byte_len(sequences.last());
        if front >= last {
            front
        } else {
            last
        }
    }
}

/// No text is longer than the longest.
pub proof fn lemma_longest(sequences: Seq<Seq<char>>, i: int)
    requires
        0 <= i < sequences.len(),
    ensures
        byte_len(sequences[i]) <= longest(sequences),
    decreases sequences.len(),
{
    if i < sequences.len() - 1 {
        lemma_longest(sequences.drop_last(), i);
        assert(sequences.drop_last()[i] == sequences[i]);
    }
}

/// The first of the stop strings that occurs in the text.
pub open spec fn first_found(sequences: Seq<Seq<char>>, text: Seq<char>, i: int) -> bool {
    &&& 0 <= i < sequences.len()
    &&& occurs(text, sequences[i])
    &&& forall|k: int| 0 <= k < i ==> !occurs(text, #[trigger] sequences[k])
}

/// Whether none of the stop strings occurs in the text.
pub open spec fn none_found(sequences: Seq<Seq<char>>, text: Seq<char>) -> bool {
    forall|k: int| 0 <= k < sequences.len() ==> !occurs(text, #[trigger] sequences[k])
}

/// Whether `tail` is what is retained of `text`: all of it where it is short,
/// else from the last character boundary that leaves at least `max_len` bytes.
pub open spec fn retained(text: Seq<char>, max_len: int, tail: Seq<char>) -> bool {
    if byte_len(text) <= 2 * max_len {
        tail == text
    } else {
        exists|n: int|
            {
                &&& 0 <= n <= text.len()
                &&& tail == #[trigger] text.skip(n)
                &&& byte_len(text.take(n)) <= byte_len(text) - max_len
                &&& n < text.len() ==> byte_len(text.take(n + 1)) > byte_len(text) - max_len
            }
    }
}

impl View for StopSequenceMatcher {
    type V = MatcherModel;

    closed spec fn view(&self) -> MatcherModel {
        MatcherModel {
            sequences: texts(self.sequences@),
            max_len: self.max_len as int,
            buffer: self.buffer@,
        }
    }
}

impl MatcherModel {
    pub open spec fn wf(self) -> bool {
        self.max_len == longest(self.sequences)
    }
}

/// A copy of the last character boundary at or before a byte position, and the
/// characters before it.
proof fn lemma_last_boundary(text: Seq<char>, at: int, b: int) -> (n: int)
    requires
        0 <= b <= at <= byte_len(text),
        is_char_boundary(encode_utf8(text), b),
        forall|k: int| b < k <= at ==> !is_char_boundary(encode_utf8(text), k),
    ensures
        0 <= n <= text.len(),
        byte_len(text.take(n)) == b,
        text == text.take(n) + text.skip(n),
        n < text.len() ==> byte_len(text.take(n + 1)) > at,
{
    let n = lemma_boundary_splits(text, b);
    if n < text.len() {
        let a = text.take(n + 1);
        assert(a + text.skip(n + 1) =~= text);
        lemma_boundary(a, text.skip(n + 1));
        assert(a =~= text.take(n) + seq![text[n]]);
        lemma_encode_concat(text.take(n), seq![text[n]]);
        lemma_byte_len(seq![text[n]]);
        assert(byte_len(a) > b);
    }
    n
}

impl StopSequenceMatcher {
    pub fn new(sequences: Vec<String>) -> (r: Self)
        ensures
            r@.wf(),
            r@.sequences == texts(sequences@),
            r@.buffer == Seq::<char>::empty(),
    {
        let mut max_len: usize = 0;
        let mut i: usize = 0;
        let ghost all = texts(sequences@);
        proof {
            assert(all.take(0) =~= seq![]);
        }
        while i < sequences.len()
            invariant
                all == texts(sequences@),
                i <= sequences@.len(),
                max_len == longest(all.take(i as int)),
            decreases sequences@.len() - i,
        {
            let n: usize = text_bytes(sequences[i].as_str());
            proof {
                assert(all.take(i + 1).drop_last() =~= all.take(i as int));
                assert(all.take(i + 1).last() == sequences@[i as int]@);
            }
            if n > max_len {
                max_len = n;
            }
            i += 1;
        }
        proof {
            assert(all.take(all.len() as int) =~= all);
        }
        StopSequenceMatcher { sequences, max_len, buffer: String::new() }
    }

    pub fn is_empty(&self) -> (r: bool)
        ensures
            r == (self@.sequences.len() == 0),
    {
        self.sequences.len() == 0
    }

    /// Bytes of text retained for the next push.
    pub fn buffered(&self) -> (r: usize)
        ensures
            r == byte_len(self@.buffer),
    {
        text_bytes(self.buffer.as_str())
    }

    /// Feeds new text; returns the stop string that matched, if any.
    pub fn push(&mut self, text: &str) -> (r: Option<String>)
        requires
            old(self)@.wf(),
        ensures
            final(self)@.wf(),
            final(self)@.sequences == old(self)@.sequences,
            if old(self)@.sequences.len() == 0 || text@.len() == 0 {
                r is None && final(self)@ == old(self)@
            } else {
                let all = old(self)@.buffer + text@;
                &&& retained(all, old(self)@.max_len, final(self)@.buffer)
                &&& match r {
                    Some(s) => exists|i: int| #[trigger]
                        first_found(old(self)@.sequences, all, i) && s@
                            == old(self)@.sequences[i],
                    None => none_found(old(self)@.sequences, all),
                }
            },
    {
        if self.sequences.len() == 0 || text.is_empty() {
            return None;
        }
        let ghost sequences = self@.sequences;
        self.buffer.append(text);
        let ghost all = self.buffer@;
        let hay = char_vec(self.buffer.as_str());
        let mut found: Option<String> = None;
        let mut i: usize = 0;
        while i < self.sequences.len() && found.is_none()
            invariant
                sequences == self@.sequences,
                sequences.len() == self.sequences@.len(),
                hay@ == all,
                self.buffer@ == all,
                self.max_len == old(self).max_len,
                self.sequences == old(self).sequences,
                i <= sequences.len(),
                match found {
                    Some(s) => exists|j: int| #[trigger]
                        first_found(sequences, all, j) && s@ == sequences[j],
                    None => forall|k: int| 0 <= k < i ==> !occurs(all, #[trigger] sequences[k]),
                },
            decreases sequences.len() - i,
        {
            let needle = char_vec(self.sequences[i].as_str());
            proof {
                assert(sequences[i as int] == self.sequences@[i as int]@);
            }
            if find(&hay, &needle).is_some() {
                found = Some(self.sequences[i].clone());
                proof {
                    assert(first_found(sequences, all, i as int));
                }
            }
            i += 1;
        }
        let len: usize = text_bytes(self.buffer.as_str());
        // Retain only enough tail to catch a stop string straddling this
        // boundary and the next.
        if len > 0 && (len - 1) / 2 >= self.max_len {
            let keep_from: usize = len - self.max_len;
            // Do not split a UTF-8 character.
            let mut boundary: usize = keep_from;
            proof {
                encode_utf8_valid_utf8(all);
                is_char_boundary_start_end_of_seq(encode_utf8(all));
            }
            while !self.buffer.as_str().is_char_boundary(boundary)
                invariant
                    self.buffer@ == all,
                    boundary <= keep_from <= byte_len(all),
                    is_char_boundary(encode_utf8(all), 0),
                    forall|k: int|
                        boundary < k <= keep_from ==> !is_char_boundary(encode_utf8(all), k),
                decreases boundary,
            {
                boundary -= 1;
            }
            let tail = tail_from(self.buffer.as_str(), boundary).to_owned();
            proof {
                let n = lemma_last_boundary(all, keep_from as int, boundary as int);
                crate::tokenizer::chars::lemma_after_bytes(all.take(n), all.skip(n));
                assert(tail@ == all.skip(n));
            }
            self.buffer = tail;
        }
        found
    }

    /// Truncates text at the first stop string, which should not be shown to
    /// the caller.
    pub fn truncate_at_stop<'a>(&self, text: &'a str) -> (r: &'a str)
        ensures
            r@ == visible(self@.sequences, text@),
    {
        let hay = char_vec(text);
        let mut cut: usize = hay.len();
        let mut i: usize = 0;
        let ghost sequences = self@.sequences;
        while i < self.sequences.len()
            invariant
                sequences == self@.sequences,
                sequences.len() == self.sequences@.len(),
                hay@ == text@,
                cut <= hay@.len(),
                i <= sequences.len(),
                cut < hay@.len() ==> stop_stands_at(sequences, text@, cut as int),
                forall|j: int, k: int|
                    0 <= j < i && 0 <= k < cut ==> !#[trigger] occurs_at(text@, sequences[j], k),
            decreases sequences.len() - i,
        {
            let needle = char_vec(self.sequences[i].as_str());
            proof {
                assert(sequences[i as int] == self.sequences@[i as int]@);
            }
            match find(&hay, &needle) {
                Some(at) => {
                    if at < cut {
                        cut = at;
                        proof {
                            assert(occurs_at(text@, sequences[i as int], cut as int));
                        }
                    }
                },
                None => {
                    proof {
                        assert forall|k: int| 0 <= k < cut implies !#[trigger] occurs_at(
                            text@,
                            sequences[i as int],
                            k,
                        ) by {
                            if occurs_at(text@, sequences[i as int], k) {
                                assert(occurs(text@, sequences[i as int]));
                            }
                        }
                    }
                },
            }
            i += 1;
        }
        let r = text.substring_char(0, cut);
        proof {
            assert(r@ =~= text@.take(cut as int));
            lemma_first_stop_is(sequences, text@, 0, cut as int);
        }
        r
    }

    /// How many characters of the text can be shown before more of it is
    /// known: all before the longest end that may begin a stop string.
    pub fn sendable(&self, text: &str) -> (r: usize)
        ensures
            r <= text@.len(),
            r == unheld(self@.sequences, text@, 0),
    {
        let hay = char_vec(text);
        let len: usize = hay.len();
        let mut k: usize = 0;
        while k < len && !self.may_begin(&hay, k)
            invariant
                hay@ == text@,
                len == hay@.len(),
                k <= len,
                unheld(self@.sequences, text@, 0) == unheld(self@.sequences, text@, k as int),
            decreases len - k,
        {
            k += 1;
        }
        k
    }

    /// Whether the text from place `k` on may begin a stop string.
    fn may_begin(&self, hay: &Vec<char>, k: usize) -> (r: bool)
        requires
            k <= hay@.len(),
        ensures
            r == begins_stop(self@.sequences, hay@.skip(k as int)),
    {
        let ghost sequences = self@.sequences;
        let ghost tail = hay@.skip(k as int);
        let len: usize = hay.len();
        let rest: usize = len - k;
        let mut i: usize = 0;
        while i < self.sequences.len()
            invariant
                sequences == self@.sequences,
                sequences.len() == self.sequences@.len(),
                tail == hay@.skip(k as int),
                rest == tail.len(),
                k + rest == len,
                len == hay@.len(),
                i <= sequences.len(),
                forall|j: int| 0 <= j < i ==> !begins(#[trigger] sequences[j], tail),
            decreases sequences.len() - i,
        {
            let needle = char_vec(self.sequences[i].as_str());
            proof {
                assert(sequences[i as int] == self.sequences@[i as int]@);
            }
            if rest < needle.len() {
                let mut n: usize = 0;
                while n < rest && needle[n] == hay[k + n]
                    invariant
                        n <= rest < needle@.len(),
                        k + rest == len,
                        len == hay@.len(),
                        forall|m: int| 0 <= m < n ==> needle@[m] == hay@[k + m],
                    decreases rest - n,
                {
                    n += 1;
                }
                if n == rest {
                    proof {
                        assert(needle@.take(rest as int) =~= tail);
                        assert(begins(sequences[i as int], tail));
                    }
                    return true;
                }
                proof {
                    if begins(sequences[i as int], tail) {
                        assert(needle@.take(rest as int)[n as int] == tail[n as int]);
                    }
                }
            }
            i += 1;
        }
        false
    }
}

/// Whether `tail` is a beginning of `needle`, and not all of it.
pub open spec fn begins(needle: Seq<char>, tail: Seq<char>) -> bool {
    tail.len() < needle.len() && needle.take(tail.len() as int) == tail
}

/// Whether more text after `tail` may make it one of the stop strings.
pub open spec fn begins_stop(sequences: Seq<Seq<char>>, tail: Seq<char>) -> bool {
    exists|i: int| 0 <= i < sequences.len() && begins(#[trigger] sequences[i], tail)
}

/// The first place from `k` on from which the text may begin a stop string, or
/// the end of the text.
pub open spec fn unheld(sequences: Seq<Seq<char>>, text: Seq<char>, k: int) -> int
    decreases text.len() - k,
{
    if k >= text.len() || begins_stop(sequences, text.skip(k)) {
        k
    } else {
        unheld(sequences, text, k + 1)
    }
}

pub proof fn lemma_unheld(sequences: Seq<Seq<char>>, text: Seq<char>, k: int)
    requires
        0 <= k <= text.len(),
    ensures
        k <= unheld(sequences, text, k) <= text.len(),
        forall|m: int|
            k <= m < unheld(sequences, text, k) ==> !begins_stop(
                sequences,
                #[trigger] text.skip(m),
            ),
    decreases text.len() - k,
{
    if k < text.len() && !begins_stop(sequences, text.skip(k)) {
        lemma_unheld(sequences, text, k + 1);
    }
}

/// Whether no stop string is empty.
pub open spec fn stops_have_text(sequences: Seq<Seq<char>>) -> bool {
    forall|i: int| 0 <= i < sequences.len() ==> (#[trigger] sequences[i]).len() > 0
}

/// Whether `sent` can stand whatever follows `held`: no stop string is in the
/// two, and none can begin in `sent`.
pub open spec fn final_part(sequences: Seq<Seq<char>>, sent: Seq<char>, held: Seq<char>) -> bool {
    &&& none_found(sequences, sent + held)
    &&& forall|p: int|
        0 <= p < sent.len() ==> !begins_stop(sequences, #[trigger] (sent + held).skip(p))
}

/// What was sent is the beginning of what is shown of the whole text, whatever
/// follows; and the rest of that is what is shown of the held text and what
/// follows it.
pub proof fn law_sent_text_stands(
    sequences: Seq<Seq<char>>,
    sent: Seq<char>,
    held: Seq<char>,
    more: Seq<char>,
)
    requires
        final_part(sequences, sent, held),
    ensures
        visible(sequences, sent + held + more) == sent + visible(sequences, held + more),
{
    let taken = sent + held;
    let whole = taken + more;
    let rest = held + more;
    let n = sent.len() as int;
    assert(whole =~= sent + rest);
    lemma_first_stop(sequences, rest, 0);
    let cut = first_stop(sequences, rest, 0);
    if cut < rest.len() {
        let i = choose|i: int|
            0 <= i < sequences.len() && #[trigger] occurs_at(rest, sequences[i], cut);
        let len = sequences[i].len();
        assert(whole.subrange(n + cut, n + cut + len) =~= rest.subrange(cut, cut + len));
        assert(occurs_at(whole, sequences[i], n + cut));
    }
    assert forall|j: int, m: int|
        0 <= j < sequences.len() && 0 <= m < n + cut implies !#[trigger] occurs_at(
        whole,
        sequences[j],
        m,
    ) by {
        let needle = sequences[j];
        if occurs_at(whole, needle, m) {
            if m >= n {
                assert(rest.subrange(m - n, m - n + needle.len()) =~= whole.subrange(
                    m,
                    m + needle.len(),
                ));
                assert(occurs_at(rest, needle, m - n));
                assert(stop_stands_at(sequences, rest, m - n));
            } else if m + needle.len() <= taken.len() {
                assert(taken.subrange(m, m + needle.len()) =~= whole.subrange(
                    m,
                    m + needle.len(),
                ));
                assert(occurs_at(taken, needle, m));
                assert(occurs(taken, needle));
            } else {
                let tail = taken.skip(m);
                assert(needle.take(tail.len() as int) =~= tail) by {
                    assert(needle =~= whole.subrange(m, m + needle.len()));
                }
                assert(begins(sequences[j], tail));
                assert(begins_stop(sequences, (sent + held).skip(m)));
            }
        }
    }
    lemma_first_stop_is(sequences, whole, 0, n + cut);
    assert(whole.take(n + cut) =~= sent + rest.take(cut));
}

/// Text that completes no stop string adds to what was sent all that cannot
/// begin one, and what was sent can still stand.
pub proof fn law_holding_back_keeps_sent_text_final(
    sequences: Seq<Seq<char>>,
    sent: Seq<char>,
    held: Seq<char>,
    piece: Seq<char>,
)
    requires
        final_part(sequences, sent, held),
        none_found(sequences, sent + held + piece),
    ensures
        ({
            let pending = held + piece;
            let n = unheld(sequences, pending, 0);
            final_part(sequences, sent + pending.take(n), pending.skip(n))
        }),
{
    let pending = held + piece;
    let n = unheld(sequences, pending, 0);
    lemma_unheld(sequences, pending, 0);
    let more = sent + pending.take(n);
    let taken = sent + held;
    let whole = taken + piece;
    assert(more + pending.skip(n) =~= whole);
    assert forall|p: int| 0 <= p < more.len() implies !begins_stop(
        sequences,
        #[trigger] (more + pending.skip(n)).skip(p),
    ) by {
        if p < sent.len() {
            if begins_stop(sequences, whole.skip(p)) {
                let i = choose|i: int|
                    0 <= i < sequences.len() && begins(#[trigger] sequences[i], whole.skip(p));
                let tail = taken.skip(p);
                assert(sequences[i].take(tail.len() as int) =~= tail) by {
                    assert(whole.skip(p) =~= tail + piece);
                    assert(sequences[i].take(tail.len() as int) =~= sequences[i].take(
                        whole.skip(p).len() as int,
                    ).take(tail.len() as int));
                }
                assert(begins(sequences[i], tail));
                assert(begins_stop(sequences, (sent + held).skip(p)));
            }
        } else {
            assert(whole.skip(p) =~= pending.skip(p - sent.len()));
        }
    }
}

/// Whether one of the stop strings stands at place `k` of the text.
pub open spec fn stop_stands_at(sequences: Seq<Seq<char>>, text: Seq<char>, k: int) -> bool {
    exists|i: int| 0 <= i < sequences.len() && #[trigger] occurs_at(text, sequences[i], k)
}

/// The first place from `k` on where a stop string stands, or the end of the
/// text.
pub open spec fn first_stop(sequences: Seq<Seq<char>>, text: Seq<char>, k: int) -> int
    decreases text.len() - k,
{
    if k >= text.len() || stop_stands_at(sequences, text, k) {
        k
    } else {
        first_stop(sequences, text, k + 1)
    }
}

/// The part of a text before the first stop string in it.
pub open spec fn visible(sequences: Seq<Seq<char>>, text: Seq<char>) -> Seq<char> {
    text.take(first_stop(sequences, text, 0))
}

proof fn lemma_first_stop_is(sequences: Seq<Seq<char>>, text: Seq<char>, k: int, cut: int)
    requires
        0 <= k <= cut <= text.len(),
        cut < text.len() ==> stop_stands_at(sequences, text, cut),
        forall|j: int, m: int|
            0 <= j < sequences.len() && 0 <= m < cut ==> !#[trigger] occurs_at(
                text,
                sequences[j],
                m,
            ),
    ensures
        first_stop(sequences, text, k) == cut,
    decreases cut - k,
{
    if k < cut {
        lemma_first_stop_is(sequences, text, k + 1, cut);
    }
}

/// What is shown of a text holds no stop string, and is all of it where the
/// text holds none.
pub proof fn law_shown_text_ends_before_the_first_stop(sequences: Seq<Seq<char>>, text: Seq<char>)
    requires
        forall|i: int| 0 <= i < sequences.len() ==> (#[trigger] sequences[i]).len() > 0,
    ensures
        none_found(sequences, visible(sequences, text)),
        none_found(sequences, text) ==> visible(sequences, text) == text,
{
    lemma_first_stop(sequences, text, 0);
    let cut = first_stop(sequences, text, 0);
    let v = visible(sequences, text);
    assert forall|i: int| 0 <= i < sequences.len() implies !occurs(v, #[trigger] sequences[i]) by {
        if occurs(v, sequences[i]) {
            let at = choose|at: int| occurs_at(v, sequences[i], at);
            assert(text.subrange(at, at + sequences[i].len()) =~= v.subrange(
                at,
                at + sequences[i].len(),
            ));
            assert(occurs_at(text, sequences[i], at));
            assert(stop_stands_at(sequences, text, at));
        }
    }
    if none_found(sequences, text) {
        if cut < text.len() {
            let i = choose|i: int|
                0 <= i < sequences.len() && #[trigger] occurs_at(text, sequences[i], cut);
            assert(occurs(text, sequences[i]));
        }
        assert(text.take(text.len() as int) =~= text);
    }
}

proof fn lemma_first_stop(sequences: Seq<Seq<char>>, text: Seq<char>, k: int)
    requires
        0 <= k <= text.len(),
    ensures
        k <= first_stop(sequences, text, k) <= text.len(),
        first_stop(sequences, text, k) < text.len() ==> stop_stands_at(
            sequences,
            text,
            first_stop(sequences, text, k),
        ),
        forall|m: int|
            k <= m < first_stop(sequences, text, k) ==> !#[trigger] stop_stands_at(
                sequences,
                text,
                m,
            ),
    decreases text.len() - k,
{
    if k < text.len() && !stop_stands_at(sequences, text, k) {
        lemma_first_stop(sequences, text, k + 1);
    }
}

/// Whether `buffer` is the end of `history`, and enough of it to notice a stop
/// string that begins there: all of it, or at least `max_len` bytes.
pub open spec fn remembers(buffer: Seq<char>, history: Seq<char>, max_len: int) -> bool {
    exists|n: int|
        {
            &&& 0 <= n <= history.len()
            &&& buffer == #[trigger] history.skip(n)
            &&& n == 0 || byte_len(buffer) >= max_len
        }
}

/// What a push retains is enough of the history for the pushes after it.
pub proof fn law_enough_text_is_retained(
    history: Seq<char>,
    buffer: Seq<char>,
    text: Seq<char>,
    max_len: int,
    tail: Seq<char>,
)
    requires
        max_len >= 0,
        remembers(buffer, history, max_len),
        retained(buffer + text, max_len, tail),
    ensures
        remembers(tail, history + text, max_len),
{
    let n = choose|n: int|
        {
            &&& 0 <= n <= history.len()
            &&& buffer == #[trigger] history.skip(n)
            &&& n == 0 || byte_len(buffer) >= max_len
        };
    let all = buffer + text;
    let whole = history + text;
    assert(all =~= whole.skip(n));
    lemma_encode_concat(buffer, text);
    if byte_len(all) <= 2 * max_len {
        assert(tail == whole.skip(n));
    } else {
        let m = choose|m: int|
            {
                &&& 0 <= m <= all.len()
                &&& tail == #[trigger] all.skip(m)
                &&& byte_len(all.take(m)) <= byte_len(all) - max_len
                &&& m < all.len() ==> byte_len(all.take(m + 1)) > byte_len(all) - max_len
            };
        assert(all.skip(m) =~= whole.skip(n + m));
        assert(all.take(m) + all.skip(m) =~= all);
        lemma_encode_concat(all.take(m), all.skip(m));
    }
}

/// A stop string is noticed with the push that completes it, however it was
/// cut into pieces before.
pub proof fn law_stop_strings_are_found_across_pushes(
    history: Seq<char>,
    m: MatcherModel,
    text: Seq<char>,
    i: int,
    at: int,
)
    requires
        m.wf(),
        remembers(m.buffer, history, m.max_len),
        0 <= i < m.sequences.len(),
        occurs_at(history + text, m.sequences[i], at),
        at + m.sequences[i].len() > history.len(),
    ensures
        occurs(m.buffer + text, m.sequences[i]),
        !none_found(m.sequences, m.buffer + text),
{
    let needle = m.sequences[i];
    let n = choose|n: int|
        {
            &&& 0 <= n <= history.len()
            &&& m.buffer == #[trigger] history.skip(n)
            &&& n == 0 || byte_len(m.buffer) >= m.max_len
        };
    let whole = history + text;
    lemma_longest(m.sequences, i);
    if at < n {
        // The needle covers more than the whole buffer.
        let inside = whole.subrange(at, at + needle.len());
        let before = whole.subrange(at, n);
        let after = whole.subrange(history.len() as int, at + needle.len());
        assert(inside =~= before + m.buffer + after);
        lemma_encode_concat(before + m.buffer, after);
        lemma_encode_concat(before, m.buffer);
        lemma_byte_len(before);
        assert(false);
    }
    let all = m.buffer + text;
    assert(all.subrange(at - n, at - n + needle.len()) =~= whole.subrange(
        at,
        at + needle.len(),
    ));
    assert(occurs_at(all, needle, at - n));
}

/// What is retained of a text is determined by the text.
pub proof fn lemma_retained_is_one(text: Seq<char>, max_len: int, a: Seq<char>, b: Seq<char>)
    requires
        retained(text, max_len, a),
        retained(text, max_len, b),
    ensures
        a == b,
{
    if byte_len(text) > 2 * max_len {
        let limit = byte_len(text) - max_len;
        let n = choose|n: int|
            {
                &&& 0 <= n <= text.len()
                &&& a == #[trigger] text.skip(n)
                &&& byte_len(text.take(n)) <= limit
                &&& n < text.len() ==> byte_len(text.take(n + 1)) > limit
            };
        let m = choose|m: int|
            {
                &&& 0 <= m <= text.len()
                &&& b == #[trigger] text.skip(m)
                &&& byte_len(text.take(m)) <= limit
                &&& m < text.len() ==> byte_len(text.take(m + 1)) > limit
            };
        let (low, high) = if n <= m {
            (n, m)
        } else {
            (m, n)
        };
        if low < high {
            let between = text.subrange(low + 1, high);
            assert(text.take(high) =~= text.take(low + 1) + between);
            lemma_encode_concat(text.take(low + 1), between);
        }
    }
}

/// What is retained stays small: at most twice the longest stop string, or its
/// length and the bytes of one character.
pub proof fn law_retained_text_is_bounded(text: Seq<char>, max_len: int, tail: Seq<char>)
    requires
        max_len >= 0,
        retained(text, max_len, tail),
    ensures
        byte_len(tail) <= 2 * max_len || byte_len(tail) <= max_len + 3,
{
    if byte_len(text) > 2 * max_len {
        let n = choose|n: int|
            {
                &&& 0 <= n <= text.len()
                &&& tail == #[trigger] text.skip(n)
                &&& byte_len(text.take(n)) <= byte_len(text) - max_len
                &&& n < text.len() ==> byte_len(text.take(n + 1)) > byte_len(text) - max_len
            };
        assert(text.take(n) + text.skip(n) =~= text);
        lemma_encode_concat(text.take(n), text.skip(n));
        if n < text.len() {
            assert(text.take(n + 1) =~= text.take(n) + seq![text[n]]);
            lemma_encode_concat(text.take(n), seq![text[n]]);
            lemma_byte_len(seq![text[n]]);
        }
    }
}

} // verus!
