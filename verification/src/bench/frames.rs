//! Reading text that arrives in pieces: the frames of an event stream, and the
//! answers of the tools that describe a machine.

use crate::config::{is_white_space, white_space};
use crate::text::owned;
use crate::tokenizer::chars::{char_vec, find, occurs, occurs_at};
use crate::tokenizer::template::same_text;
use vstd::prelude::*;
use vstd::string::*;

verus! {

/// A text without the white space at its start.
pub open spec fn trimmed_start(s: Seq<char>) -> Seq<char>
    decreases s.len(),
{
    if s.len() > 0 && white_space(s[0]) {
        trimmed_start(s.drop_first())
    } else {
        s
    }
}

/// A text without the white space at its end.
pub open spec fn trimmed_end(s: Seq<char>) -> Seq<char>
    decreases s.len(),
{
    if s.len() > 0 && white_space(s.last()) {
        trimmed_end(s.drop_last())
    } else {
        s
    }
}

/// A text without the white space around it.
pub open spec fn trimmed(s: Seq<char>) -> Seq<char> {
    trimmed_end(trimmed_start(s))
}

/// A text without the white space around it.
pub fn trim(s: &str) -> (r: &str)
    ensures
        r@ == trimmed(s@),
{
    let chars = char_vec(s);
    let n: usize = chars.len();
    let mut from: usize = 0;
    proof {
        assert(s@.skip(0) =~= s@);
    }
    while from < n && is_white_space(chars[from])
        invariant
            n == chars@.len(),
            chars@ == s@,
            from <= n,
            trimmed_start(s@.skip(from as int)) == trimmed_start(s@),
        decreases n - from,
    {
        proof {
            assert(s@.skip(from as int).drop_first() =~= s@.skip(from + 1));
        }
        from += 1;
    }
    let mut to: usize = n;
    proof {
        assert(s@.subrange(from as int, n as int) =~= s@.skip(from as int));
    }
    while to > from && is_white_space(chars[to - 1])
        invariant
            n == chars@.len(),
            chars@ == s@,
            from <= to <= n,
            trimmed_end(s@.subrange(from as int, to as int)) == trimmed(s@),
        decreases to,
    {
        proof {
            assert(s@.subrange(from as int, to as int).drop_last() =~= s@.subrange(
                from as int,
                to - 1,
            ));
        }
        to -= 1;
    }
    s.substring_char(from, to)
}

/// Whether `needle` stands at that place of `hay` and at no earlier one.
pub open spec fn first_at(hay: Seq<char>, needle: Seq<char>, at: int) -> bool {
    &&& occurs_at(hay, needle, at)
    &&& forall|k: int| 0 <= k < at ==> !occurs_at(hay, needle, k)
}

/// The first place of `hay` where `needle` stands.
pub open spec fn place(hay: Seq<char>, needle: Seq<char>) -> Option<int> {
    if occurs(hay, needle) {
        Some(choose|at: int| first_at(hay, needle, at))
    } else {
        None
    }
}

/// There is one first place.
proof fn lemma_place(hay: Seq<char>, needle: Seq<char>, at: int)
    requires
        first_at(hay, needle, at),
    ensures
        place(hay, needle) == Some(at),
{
    assert(occurs(hay, needle));
    let other = choose|x: int| first_at(hay, needle, x);
    assert(first_at(hay, needle, other));
    if other < at {
    } else if at < other {
    }
}

/// The first place of `hay` where `needle` stands.
fn find_text(hay: &str, needle: &str) -> (r: Option<usize>)
    ensures
        match r {
            Some(at) => place(hay@, needle@) == Some(at as int) && at + needle@.len() <= hay@.len(),
            None => place(hay@, needle@) is None,
        },
{
    let h = char_vec(hay);
    let n = char_vec(needle);
    match find(&h, &n) {
        Some(at) => {
            proof {
                assert(first_at(hay@, needle@, at as int));
                lemma_place(hay@, needle@, at as int);
            }
            Some(at)
        },
        None => None,
    }
}

/// What stands before the first `needle`; everything where there is none.
pub open spec fn until(s: Seq<char>, needle: Seq<char>) -> Seq<char> {
    match place(s, needle) {
        Some(at) => s.take(at),
        None => s,
    }
}

/// What stands behind the first `needle`, if there is one.
pub open spec fn beyond(s: Seq<char>, needle: Seq<char>) -> Option<Seq<char>> {
    match place(s, needle) {
        Some(at) => Some(s.skip(at + needle.len())),
        None => None,
    }
}

fn text_until<'a>(s: &'a str, needle: &str) -> (r: &'a str)
    ensures
        r@ == until(s@, needle@),
        r@.len() <= s@.len(),
{
    match find_text(s, needle) {
        Some(at) => {
            let r = s.substring_char(0, at);
            proof {
                assert(r@ =~= s@.take(at as int));
            }
            r
        },
        None => s,
    }
}

fn text_beyond<'a>(s: &'a str, needle: &str) -> (r: Option<&'a str>)
    ensures
        match r {
            Some(t) => beyond(s@, needle@) == Some(t@) && t@.len() + needle@.len() <= s@.len(),
            None => beyond(s@, needle@) is None,
        },
{
    match find_text(s, needle) {
        Some(at) => {
            let n: usize = s.unicode_len();
            let r = s.substring_char(at + needle.unicode_len(), n);
            proof {
                assert(r@ =~= s@.skip(at + needle@.len()));
            }
            Some(r)
        },
        None => None,
    }
}

/// One line of an event stream.
#[derive(Debug)]
pub enum Frame {
    /// A line that carries no event.
    Other,
    /// The end of the events.
    Done,
    /// The payload of an event.
    Data(String),
}

/// What a line of an event stream is.
pub open spec fn is_frame(line: Seq<char>, f: Frame) -> bool {
    let prefix = "data: "@;
    if prefix.is_prefix_of(line) {
        if line.skip(prefix.len() as int) == "[DONE]"@ {
            f is Done
        } else {
            f matches Frame::Data(payload) && payload@ == line.skip(prefix.len() as int)
        }
    } else {
        f is Other
    }
}

fn classify(line: &str) -> (r: Frame)
    ensures
        is_frame(line@, r),
{
    proof {
        reveal_strlit("data: ");
    }
    let n: usize = line.unicode_len();
    if n < 6 {
        return Frame::Other;
    }
    let head = line.substring_char(0, 6);
    if !same_text(head, "data: ") {
        proof {
            if "data: "@.is_prefix_of(line@) {
                assert(head@ =~= "data: "@);
            }
        }
        return Frame::Other;
    }
    proof {
        assert("data: "@.is_prefix_of(line@)) by {
            assert("data: "@ =~= line@.subrange(0, 6));
        }
    }
    let payload = line.substring_char(6, n);
    proof {
        assert(payload@ =~= line@.skip(6));
    }
    if same_text(payload, "[DONE]") {
        Frame::Done
    } else {
        Frame::Data(owned(payload))
    }
}

/// Splits an event stream into its lines. A piece of the stream may end inside
/// one, so only complete lines are read and the remainder is carried forward.
#[derive(Debug)]
pub struct FrameReader {
    buffer: String,
}

impl FrameReader {
    /// What has arrived and has not been read.
    pub closed spec fn pending(&self) -> Seq<char> {
        self.buffer@
    }

    pub fn new() -> (r: FrameReader)
        ensures
            r.pending().len() == 0,
    {
        FrameReader { buffer: String::new() }
    }

    /// Takes in a further piece.
    pub fn push(&mut self, piece: &str)
        ensures
            final(self).pending() == old(self).pending() + piece@,
    {
        self.buffer.append(piece);
    }

    /// The next complete line, white space around it dropped.
    pub fn next_frame(&mut self) -> (r: Option<Frame>)
        ensures
            match r {
                None => {
                    &&& place(old(self).pending(), "\n"@) is None
                    &&& final(self).pending() == old(self).pending()
                },
                Some(f) => {
                    &&& place(old(self).pending(), "\n"@) is Some
                    &&& is_frame(trimmed(until(old(self).pending(), "\n"@)), f)
                    &&& beyond(old(self).pending(), "\n"@) == Some(final(self).pending())
                },
            },
    {
        let rest = match text_beyond(self.buffer.as_str(), "\n") {
            Some(rest) => owned(rest),
            None => {
                return None;
            },
        };
        let line = text_until(self.buffer.as_str(), "\n");
        let frame = classify(trim(line));
        self.buffer = rest;
        Some(frame)
    }
}

/// How the stream is cut into pieces does not matter: a line that is complete
/// is read the same however much follows it, and what follows stays behind it.
pub proof fn law_frames_do_not_depend_on_the_pieces(arrived: Seq<char>, more: Seq<char>)
    requires
        place(arrived, "\n"@) is Some,
    ensures
        until(arrived + more, "\n"@) == until(arrived, "\n"@),
        beyond(arrived + more, "\n"@) == Some(beyond(arrived, "\n"@)->0 + more),
{
    let needle = "\n"@;
    reveal_strlit("\n");
    let at = lemma_first_exists(arrived, needle);
    lemma_place(arrived, needle, at);
    let whole = arrived + more;
    assert(whole.subrange(at, at + needle.len()) =~= arrived.subrange(at, at + needle.len()));
    assert forall|k: int| 0 <= k < at implies !occurs_at(whole, needle, k) by {
        if occurs_at(whole, needle, k) {
            assert(whole.subrange(k, k + needle.len()) =~= arrived.subrange(k, k + needle.len()));
            assert(occurs_at(arrived, needle, k));
        }
    }
    assert(first_at(whole, needle, at));
    lemma_place(whole, needle, at);
    assert(whole.take(at) =~= arrived.take(at));
    assert(whole.skip(at + needle.len()) =~= arrived.skip(at + needle.len()) + more);
}

/// Where something stands, it stands somewhere first.
proof fn lemma_first_exists(hay: Seq<char>, needle: Seq<char>) -> (at: int)
    requires
        occurs(hay, needle),
    ensures
        first_at(hay, needle, at),
{
    let some = choose|x: int| occurs_at(hay, needle, x);
    lemma_least(hay, needle, some)
}

proof fn lemma_least(hay: Seq<char>, needle: Seq<char>, some: int) -> (at: int)
    requires
        occurs_at(hay, needle, some),
    ensures
        first_at(hay, needle, at),
    decreases some,
{
    if exists|k: int| 0 <= k < some && occurs_at(hay, needle, k) {
        let k = choose|k: int| 0 <= k < some && occurs_at(hay, needle, k);
        lemma_least(hay, needle, k)
    } else {
        some
    }
}

/// The first line of a tool's answer, if it has one.
pub open spec fn first_line(answer: Seq<char>) -> Option<Seq<char>> {
    let line = trimmed(until(trimmed(answer), "\n"@));
    if line.len() == 0 {
        None
    } else {
        Some(line)
    }
}

/// The name of a device, from the answer of the tool that lists the devices.
pub fn device_name(answer: &str) -> (r: Option<String>)
    ensures
        match r {
            Some(name) => first_line(answer@) == Some(name@),
            None => first_line(answer@) is None,
        },
{
    let line = trim(text_until(trim(answer), "\n"));
    if line.unicode_len() == 0 {
        None
    } else {
        Some(owned(line))
    }
}

/// A text without the commas at its end.
pub open spec fn without_commas(s: Seq<char>) -> Seq<char>
    decreases s.len(),
{
    if s.len() > 0 && s.last() == ',' {
        without_commas(s.drop_last())
    } else {
        s
    }
}

/// The first line that holds a word.
pub open spec fn line_with(text: Seq<char>, word: Seq<char>) -> Option<Seq<char>>
    decreases text.len(),
{
    let line = until(text, "\n"@);
    if occurs(line, word) {
        Some(line)
    } else {
        match beyond(text, "\n"@) {
            Some(rest) if rest.len() < text.len() => line_with(rest, word),
            _ => None,
        }
    }
}

/// The release that a compiler's version text states: what stands behind the
/// word `release` on the first line that holds it, up to a second such word.
pub open spec fn release(text: Seq<char>) -> Option<Seq<char>> {
    match line_with(text, "release"@) {
        None => None,
        Some(line) => Some(
            without_commas(trimmed(until(beyond(line, "release"@)->0, "release"@))),
        ),
    }
}

/// The release that a compiler's version text states.
pub fn toolkit_release(answer: &str) -> (r: Option<String>)
    ensures
        match r {
            Some(v) => release(trimmed(answer@)) == Some(v@),
            None => release(trimmed(answer@)) is None,
        },
{
    let whole = trim(answer);
    let mut text = whole;
    loop
        invariant
            line_with(text@, "release"@) == line_with(whole@, "release"@),
            whole@ == trimmed(answer@),
        decreases text@.len(),
    {
        let line = text_until(text, "\n");
        match text_beyond(line, "release") {
            Some(rest) => {
                let stated = trim(text_until(rest, "release"));
                return Some(owned(strip_commas(stated)));
            },
            None => {},
        }
        proof {
            reveal_strlit("\n");
        }
        match text_beyond(text, "\n") {
            Some(rest) => {
                text = rest;
            },
            None => {
                return None;
            },
        }
    }
}

fn strip_commas(s: &str) -> (r: &str)
    ensures
        r@ == without_commas(s@),
{
    let n: usize = s.unicode_len();
    let mut to: usize = n;
    proof {
        assert(s@.take(n as int) =~= s@);
    }
    while to > 0 && s.get_char(to - 1) == ','
        invariant
            n == s@.len(),
            to <= n,
            without_commas(s@.take(to as int)) == without_commas(s@),
        decreases to,
    {
        proof {
            assert(s@.take(to as int).drop_last() =~= s@.take(to - 1));
        }
        to -= 1;
    }
    let r = s.substring_char(0, to);
    proof {
        assert(r@ =~= s@.take(to as int));
    }
    r
}

} // verus!
