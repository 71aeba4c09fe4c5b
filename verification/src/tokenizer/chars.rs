//! Texts as characters and as bytes.

use vstd::prelude::*;
use vstd::string::*;
use vstd::utf8::{
    decode_utf8, encode_scalar, encode_utf8, encode_utf8_decode_utf8, encode_utf8_first_scalar,
    encode_utf8_valid_utf8, is_char_boundary, length_of_first_scalar, pop_first_scalar,
};

verus! {

/// The number of bytes of a text in UTF-8.
pub open spec fn byte_len(text: Seq<char>) -> int {
    encode_utf8(text).len() as int
}

/// The bytes of two texts in a row are those of the one and then the other.
pub proof fn lemma_encode_concat(a: Seq<char>, b: Seq<char>)
    ensures
        encode_utf8(a + b) == encode_utf8(a) + encode_utf8(b),
        byte_len(a + b) == byte_len(a) + byte_len(b),
    decreases a.len(),
{
    if a.len() == 0 {
        assert(a + b =~= b);
        assert(encode_utf8(a) + encode_utf8(b) =~= encode_utf8(b));
    } else {
        assert((a + b).drop_first() =~= a.drop_first() + b);
        lemma_encode_concat(a.drop_first(), b);
        assert(encode_utf8(a + b) =~= encode_utf8(a) + encode_utf8(b));
    }
}

/// A text is at least as long in bytes as in characters.
pub proof fn lemma_byte_len(text: Seq<char>)
    ensures
        text.len() <= byte_len(text) <= 4 * text.len(),
    decreases text.len(),
{
    if text.len() > 0 {
        lemma_byte_len(text.drop_first());
    }
}

/// The end of a text's beginning is a character boundary, and what follows it
/// in bytes is what follows it in characters.
pub proof fn lemma_boundary(a: Seq<char>, b: Seq<char>)
    ensures
        is_char_boundary(encode_utf8(a + b), byte_len(a)),
        encode_utf8(a + b).subrange(byte_len(a), byte_len(a + b)) == encode_utf8(b),
        encode_utf8(a + b).subrange(0, byte_len(a)) == encode_utf8(a),
    decreases a.len(),
{
    lemma_encode_concat(a, b);
    encode_utf8_valid_utf8(a + b);
    assert(encode_utf8(a + b).subrange(byte_len(a), byte_len(a + b)) =~= encode_utf8(b));
    assert(encode_utf8(a + b).subrange(0, byte_len(a)) =~= encode_utf8(a));
    if a.len() > 0 {
        let t = a + b;
        encode_utf8_first_scalar(t);
        assert(t.drop_first() =~= a.drop_first() + b);
        assert(pop_first_scalar(encode_utf8(t)) =~= encode_utf8(t.drop_first()));
        lemma_boundary(a.drop_first(), b);
        assert(byte_len(a) == encode_scalar(a[0] as u32).len() + byte_len(a.drop_first()));
    }
}

/// A character boundary splits a text in two.
pub proof fn lemma_boundary_splits(text: Seq<char>, at: int) -> (n: int)
    requires
        is_char_boundary(encode_utf8(text), at),
        0 <= at <= byte_len(text),
    ensures
        0 <= n <= text.len(),
        byte_len(text.take(n)) == at,
        text.take(n) + text.skip(n) == text,
    decreases text.len(),
{
    encode_utf8_valid_utf8(text);
    if at == 0 {
        assert(text.take(0) + text.skip(0) =~= text);
        0
    } else {
        encode_utf8_first_scalar(text);
        let rest = text.drop_first();
        assert(pop_first_scalar(encode_utf8(text)) =~= encode_utf8(rest));
        encode_utf8_valid_utf8(rest);
        let less = at - length_of_first_scalar(encode_utf8(text));
        assert(is_char_boundary(encode_utf8(rest), less));
        let m = lemma_boundary_splits(rest, less);
        assert(text.take(m + 1).drop_first() =~= rest.take(m));
        assert(text.take(m + 1) + text.skip(m + 1) =~= text);
        m + 1
    }
}

/// The text after the first `at` bytes, where those are whole characters.
pub open spec fn after_bytes(text: Seq<char>, at: int) -> Seq<char> {
    decode_utf8(encode_utf8(text).subrange(at, byte_len(text)))
}

/// What follows the beginning of a text.
pub proof fn lemma_after_bytes(a: Seq<char>, b: Seq<char>)
    ensures
        after_bytes(a + b, byte_len(a)) == b,
{
    lemma_boundary(a, b);
    encode_utf8_decode_utf8(b);
}

/// The number of bytes of a text.
pub fn text_bytes(s: &str) -> (r: usize)
    ensures
        r == byte_len(s@),
{
    s.as_bytes().len()
}

/// The text after the first `at` bytes.
pub fn tail_from<'a>(s: &'a str, at: usize) -> (r: &'a str)
    requires
        at <= byte_len(s@),
        is_char_boundary(encode_utf8(s@), at as int),
    ensures
        r@ == after_bytes(s@, at as int),
        s@ == s@.take(s@.len() - r@.len()) + r@,
        byte_len(s@.take(s@.len() - r@.len())) == at,
{
    let (_head, tail) = s.split_at(at);
    proof {
        let n = lemma_boundary_splits(s@, at as int);
        lemma_after_bytes(s@.take(n), s@.skip(n));
        encode_utf8_decode_utf8(tail@);
        assert(tail@ == s@.skip(n));
        assert(s@.take(s@.len() - tail@.len()) =~= s@.take(n));
    }
    tail
}

/// The characters of a text.
pub fn char_vec(s: &str) -> (r: Vec<char>)
    ensures
        r@ == s@,
{
    let mut out: Vec<char> = Vec::new();
    for c in it: s.chars()
        invariant
            it.seq() == s@,
            out@ == s@.take(it.index() as int),
    {
        out.push(c);
        proof {
            assert(out@ =~= s@.take(it.index() + 1));
        }
    }
    proof {
        assert(s@.take(s@.len() as int) =~= s@);
    }
    out
}

/// Whether `needle` stands at place `at` of `hay`.
pub open spec fn occurs_at(hay: Seq<char>, needle: Seq<char>, at: int) -> bool {
    &&& 0 <= at
    &&& at + needle.len() <= hay.len()
    &&& hay.subrange(at, at + needle.len()) == needle
}

/// Whether `needle` stands anywhere in `hay`.
pub open spec fn occurs(hay: Seq<char>, needle: Seq<char>) -> bool {
    exists|at: int| occurs_at(hay, needle, at)
}

/// The first place of `hay` where `needle` stands.
pub fn find(hay: &Vec<char>, needle: &Vec<char>) -> (r: Option<usize>)
    ensures
        match r {
            Some(at) => {
                &&& occurs_at(hay@, needle@, at as int)
                &&& forall|k: int| 0 <= k < at ==> !occurs_at(hay@, needle@, k)
            },
            None => !occurs(hay@, needle@),
        },
{
    if needle.len() > hay.len() {
        return None;
    }
    let last: usize = hay.len() - needle.len();
    let mut at: usize = 0;
    while at <= last
        invariant
            last == hay@.len() - needle@.len(),
            at <= last + 1,
            last < usize::MAX || at <= last,
            forall|k: int| 0 <= k < at ==> !occurs_at(hay@, needle@, k),
        decreases last + 1 - at,
    {
        if stands_at(hay, needle, at) {
            return Some(at);
        }
        if at == last {
            proof {
                assert forall|k: int| !occurs_at(hay@, needle@, k) by {
                    if k == at as int {
                    } else if 0 <= k < at {
                    }
                }
            }
            return None;
        }
        at += 1;
    }
    None
}

/// The first place of `hay` from `from` on where `needle` stands.
pub fn find_from(hay: &Vec<char>, needle: &Vec<char>, from: usize) -> (r: Option<usize>)
    requires
        from <= hay@.len(),
    ensures
        match r {
            Some(at) => {
                &&& from <= at
                &&& occurs_at(hay@, needle@, at as int)
                &&& forall|k: int| from <= k < at ==> !occurs_at(hay@, needle@, k)
            },
            None => forall|k: int| from <= k ==> !occurs_at(hay@, needle@, k),
        },
{
    let len: usize = hay.len();
    let mut at: usize = from;
    while at <= len && needle.len() <= len - at
        invariant
            len == hay@.len(),
            from <= at,
            at <= len + 1,
            at <= len || needle@.len() == 0,
            forall|k: int| from <= k < at ==> !occurs_at(hay@, needle@, k),
        decreases len + 1 - at,
    {
        if stands_at(hay, needle, at) {
            return Some(at);
        }
        if at == len {
            return None;
        }
        at += 1;
    }
    None
}

/// Whether `needle` stands at place `at` of `hay`.
pub fn stands_at(hay: &Vec<char>, needle: &Vec<char>, at: usize) -> (r: bool)
    requires
        at + needle@.len() <= hay@.len(),
    ensures
        r == occurs_at(hay@, needle@, at as int),
{
    let len: usize = hay.len();
    let mut i: usize = 0;
    while i < needle.len()
        invariant
            i <= needle@.len(),
            len == hay@.len(),
            at + needle@.len() <= hay@.len(),
            forall|k: int| 0 <= k < i ==> hay@[at + k] == needle@[k],
        decreases needle@.len() - i,
    {
        if hay[at + i] != needle[i] {
            proof {
                if occurs_at(hay@, needle@, at as int) {
                    assert(hay@.subrange(at as int, at + needle@.len())[i as int]
                        == needle@[i as int]);
                }
            }
            return false;
        }
        i += 1;
    }
    proof {
        assert(hay@.subrange(at as int, at + needle@.len()) =~= needle@);
    }
    true
}

} // verus!
