//! The decisions of the sampler: which logits are penalized, masked or drawn.
//!
//! Sampling is kept apart from model execution. The filters are applied in this
//! order:
//!
//! ```text
//! logits
//!   └─► repetition penalty   (operates on raw logits, sign-aware)
//!       └─► temperature      (scales before any probability is formed)
//!           └─► top-k        (cheap, shrinks the candidate set)
//!               └─► top-p    (needs a normalized distribution)
//!                   └─► sample
//! ```
//!
//! Numbers are compared here and computed with elsewhere: where a filter needs
//! probabilities or their running sums, it takes them as arguments.

use crate::error::EngineError;
use crate::float::Float32;
use crate::id::TokenId;
use crate::text::owned;
use vstd::prelude::*;
use vstd::string::*;

verus! {

/// The bit pattern of `-1.0e30`, which masks out a filtered token.
///
/// It underflows to exactly zero probability, and unlike negative infinity it
/// stays arithmetically safe where every candidate is masked.
pub const MASKED: u32 = 0xf149_f2ca;

/// The bit pattern of negative infinity.
pub const NEGATIVE_INFINITY: u32 = 0xff80_0000;

/// The mask as a number.
pub open spec fn spec_masked() -> Float32 {
    Float32 { bits: MASKED }
}

/// The mask as a number.
pub fn masked() -> (r: Float32)
    ensures
        r == spec_masked(),
{
    Float32 { bits: MASKED }
}

/// Refuses an empty row of logits.
pub fn check_row(len: usize) -> (r: Result<(), EngineError>)
    ensures
        match r {
            Ok(()) => len > 0,
            Err(e) => len == 0 && e.is_internal("sampler received an empty logits row"@),
        },
{
    if len == 0 {
        return Err(EngineError::Internal(owned("sampler received an empty logits row")));
    }
    Ok(())
}

/// What a repetition penalty does to a logit.
#[derive(Debug, Clone, Copy, PartialEq, Eq, Structural)]
pub enum Penalty {
    /// The token has not occurred.
    Keep,
    /// A positive logit is divided.
    Divide,
    /// Any other is multiplied: both directions move it down.
    Multiply,
}

/// What a repetition penalty does to a logit of a token that has or has not
/// occurred.
pub open spec fn penalty_for(logit: Float32, occurred: bool) -> Penalty {
    if !occurred {
        Penalty::Keep
    } else if Float32::spec_zero().below(logit) {
        Penalty::Divide
    } else {
        Penalty::Multiply
    }
}

/// What a repetition penalty does to each logit, given the tokens of the
/// context. It is applied once for each distinct token, not once for each
/// occurrence, so that a long repeated context does not drive a logit to zero;
/// a penalty of one does nothing, and neither does a token outside the
/// vocabulary.
pub fn repetition_penalties(logits: &[Float32], previous: &[TokenId], penalty: Float32) -> (r: Vec<
    Penalty,
>)
    ensures
        r@.len() == logits@.len(),
        forall|i: int|
            0 <= i < logits@.len() ==> #[trigger] r@[i] == penalty_for(
                logits@[i],
                !penalty.same(Float32::spec_one()) && occurs_in(previous@, i),
            ),
        forall|i: int|
            0 <= i < logits@.len() && !occurs_in(previous@, i) ==> (#[trigger] r@[i]) is Keep,
        penalty.bits == 0x3f80_0000 ==> forall|i: int|
            0 <= i < logits@.len() ==> (#[trigger] r@[i]) is Keep,
        penalty.bits != 0x3f80_0000 ==> forall|i: int|
            0 <= i < logits@.len() && occurs_in(previous@, i) ==> {
                &&& 0 < logits@[i].bits <= 0x7f80_0000 ==> (#[trigger] r@[i]) is Divide
                &&& logits@[i].bits == 0 || logits@[i].bits >= 0x8000_0000 ==> r@[i] is Multiply
            },
{
    let n: usize = logits.len();
    let mut out: Vec<Penalty> = Vec::new();
    let mut i: usize = 0;
    while i < n
        invariant
            i <= n,
            out@.len() == i,
            forall|k: int| 0 <= k < i ==> #[trigger] out@[k] == Penalty::Keep,
        decreases n - i,
    {
        out.push(Penalty::Keep);
        i += 1;
    }
    if penalty.equals(Float32::one()) {
        return out;
    }
    let mut j: usize = 0;
    while j < previous.len()
        invariant
            n == logits@.len(),
            out@.len() == n,
            j <= previous@.len(),
            forall|k: int|
                0 <= k < n ==> #[trigger] out@[k] == penalty_for(
                    logits@[k],
                    occurs_in(previous@.take(j as int), k),
                ),
        decreases previous@.len() - j,
    {
        let token: usize = previous[j] as usize;
        let ghost was = out@;
        if token < n {
            let p = if Float32::zero().lt(logits[token]) {
                Penalty::Divide
            } else {
                Penalty::Multiply
            };
            out.set(token, p);
        }
        proof {
            assert forall|k: int| 0 <= k < n implies #[trigger] out@[k] == penalty_for(
                logits@[k],
                occurs_in(previous@.take(j + 1), k),
            ) by {
                lemma_occurs_step(previous@, j as int, k);
                assert(was[k] == penalty_for(
                    logits@[k],
                    occurs_in(previous@.take(j as int), k),
                ));
            }
        }
        j += 1;
    }
    proof {
        assert(previous@.take(previous@.len() as int) =~= previous@);
    }
    out
}

/// Whether a token is in a context.
pub open spec fn occurs_in(previous: Seq<TokenId>, token: int) -> bool {
    exists|j: int| 0 <= j < previous.len() && #[trigger] previous[j] == token
}

proof fn lemma_occurs_step(previous: Seq<TokenId>, j: int, token: int)
    requires
        0 <= j < previous.len(),
    ensures
        occurs_in(previous.take(j + 1), token) == (occurs_in(previous.take(j), token)
            || previous[j] == token),
{
    let now = previous.take(j + 1);
    let before = previous.take(j);
    if occurs_in(before, token) {
        let k = choose|k: int| 0 <= k < before.len() && #[trigger] before[k] == token;
        assert(now[k] == token);
    }
    if previous[j] == token {
        assert(now[j] == token);
    }
    if occurs_in(now, token) {
        let k = choose|k: int| 0 <= k < now.len() && #[trigger] now[k] == token;
        if k < j {
            assert(before[k] == token);
        }
    }
}

/// How often a token has occurred, and in what order, does not matter to the
/// penalty.
pub proof fn law_penalty_is_once_per_token(previous: Seq<TokenId>, again: TokenId, token: int)
    requires
        occurs_in(previous, again as int),
    ensures
        occurs_in(previous.push(again), token) == occurs_in(previous, token),
{
    let now = previous.push(again);
    if occurs_in(now, token) {
        let k = choose|k: int| 0 <= k < now.len() && #[trigger] now[k] == token;
        if k < previous.len() {
            assert(previous[k] == token);
        } else {
            let j = choose|j: int| 0 <= j < previous.len() && #[trigger] previous[j] == again;
            assert(previous[j] == token);
        }
    }
    if occurs_in(previous, token) {
        let k = choose|k: int| 0 <= k < previous.len() && #[trigger] previous[k] == token;
        assert(now[k] == token);
    }
}

/// The index of the largest logit, the lowest of them where several are
/// largest, so that greedy decoding is fully deterministic. What is no number,
/// or negative infinity, is never chosen.
pub fn argmax(logits: &[Float32]) -> (r: Option<usize>)
    ensures
        match r {
            None => forall|i: int|
                0 <= i < logits@.len() ==> !Float32 { bits: NEGATIVE_INFINITY }.below(
                    #[trigger] logits@[i],
                ),
            Some(at) => {
                &&& at < logits@.len()
                &&& Float32 { bits: NEGATIVE_INFINITY }.below(logits@[at as int])
                &&& forall|i: int|
                    0 <= i < logits@.len() ==> !logits@[at as int].below(#[trigger] logits@[i])
                &&& forall|i: int| 0 <= i < at ==> !(#[trigger] logits@[i]).same(logits@[at as int])
            },
        },
{
    let mut best: Option<usize> = None;
    let mut best_val = Float32 { bits: NEGATIVE_INFINITY };
    let mut i: usize = 0;
    while i < logits.len()
        invariant
            i <= logits@.len(),
            match best {
                None => {
                    &&& best_val == Float32 { bits: NEGATIVE_INFINITY }
                    &&& forall|k: int|
                        0 <= k < i ==> !Float32 { bits: NEGATIVE_INFINITY }.below(
                            #[trigger] logits@[k],
                        )
                },
                Some(at) => {
                    &&& at < i
                    &&& best_val == logits@[at as int]
                    &&& Float32 { bits: NEGATIVE_INFINITY }.below(best_val)
                    &&& forall|k: int| 0 <= k < i ==> !best_val.below(#[trigger] logits@[k])
                    &&& forall|k: int| 0 <= k < at ==> !(#[trigger] logits@[k]).same(best_val)
                },
            },
        decreases logits@.len() - i,
    {
        let l: Float32 = logits[i];
        if best_val.lt(l) {
            best_val = l;
            best = Some(i);
        }
        i += 1;
    }
    best
}

/// An entry of a row and its place in a descending order.
#[derive(Debug, Clone, Copy, PartialEq, Eq, Structural)]
pub struct Ranked {
    pub key: i64,
    pub index: usize,
}

/// Larger numbers come first, and of equal ones the one with the lower index.
pub open spec fn precedes(a: Ranked, b: Ranked) -> bool {
    a.key < b.key || (a.key == b.key && a.index < b.index)
}

pub open spec fn in_rank_order(s: Seq<Ranked>) -> bool {
    forall|i: int, j: int|
        #![trigger s[i], s[j]]
        0 <= i < j < s.len() ==> precedes(s[i], s[j])
}

/// Whether entries are a ranking of a row: each entry of the row that counts,
/// once, from the largest number down.
pub open spec fn is_ranking(s: Seq<Ranked>, row: Seq<Float32>, counts: spec_fn(int) -> bool) -> bool {
    &&& in_rank_order(s)
    &&& forall|i: int|
        0 <= i < s.len() ==> (#[trigger] s[i]).index < row.len() && counts(s[i].index as int)
            && s[i].key == -row[s[i].index as int].place()
    &&& forall|k: int| 0 <= k < row.len() && #[trigger] counts(k) ==> ranks(s, k)
}

/// Whether a ranking has an entry.
pub open spec fn ranks(s: Seq<Ranked>, index: int) -> bool {
    exists|i: int| 0 <= i < s.len() && (#[trigger] s[i]).index == index
}

/// Merges two ordered lists of different entries.
fn merge(a: &Vec<Ranked>, b: &Vec<Ranked>) -> (r: Vec<Ranked>)
    requires
        in_rank_order(a@),
        in_rank_order(b@),
        forall|i: int, j: int|
            #![trigger a@[i], b@[j]]
            0 <= i < a@.len() && 0 <= j < b@.len() ==> a@[i].index < b@[j].index,
        a@.len() + b@.len() <= usize::MAX,
    ensures
        in_rank_order(r@),
        forall|k: int|
            0 <= k < r@.len() ==> a@.contains(#[trigger] r@[k]) || b@.contains(r@[k]),
        forall|i: int| 0 <= i < a@.len() ==> r@.contains(#[trigger] a@[i]),
        forall|j: int| 0 <= j < b@.len() ==> r@.contains(#[trigger] b@[j]),
        r@.len() == a@.len() + b@.len(),
{
    let mut out: Vec<Ranked> = Vec::new();
    let mut i: usize = 0;
    let mut j: usize = 0;
    while i < a.len() || j < b.len()
        invariant
            i <= a@.len(),
            j <= b@.len(),
            in_rank_order(a@),
            in_rank_order(b@),
            forall|x: int, y: int|
                #![trigger a@[x], b@[y]]
                0 <= x < a@.len() && 0 <= y < b@.len() ==> a@[x].index < b@[y].index,
            out@.len() == i + j,
            in_rank_order(out@),
            forall|k: int|
                0 <= k < out@.len() ==> a@.contains(#[trigger] out@[k]) || b@.contains(out@[k]),
            forall|k: int, x: int|
                #![trigger out@[k], a@[x]]
                0 <= k < out@.len() && i <= x < a@.len() ==> precedes(out@[k], a@[x]),
            forall|k: int, y: int|
                #![trigger out@[k], b@[y]]
                0 <= k < out@.len() && j <= y < b@.len() ==> precedes(out@[k], b@[y]),
            forall|x: int| 0 <= x < i ==> out@.contains(#[trigger] a@[x]),
            forall|y: int| 0 <= y < j ==> out@.contains(#[trigger] b@[y]),
        decreases a@.len() - i + b@.len() - j,
    {
        let ghost was = out@;
        let take_first: bool = if i < a.len() {
            if j < b.len() {
                a[i].key <= b[j].key
            } else {
                true
            }
        } else {
            false
        };
        if take_first {
            out.push(a[i]);
            i += 1;
        } else {
            out.push(b[j]);
            j += 1;
        }
        proof {
            assert(out@.drop_last() =~= was);
            assert forall|x: int| 0 <= x < i implies out@.contains(#[trigger] a@[x]) by {
                if was.contains(a@[x]) {
                    let k = choose|k: int| 0 <= k < was.len() && was[k] == a@[x];
                    assert(out@[k] == a@[x]);
                } else {
                    assert(out@[out@.len() - 1] == a@[x]);
                }
            }
            assert forall|y: int| 0 <= y < j implies out@.contains(#[trigger] b@[y]) by {
                if was.contains(b@[y]) {
                    let k = choose|k: int| 0 <= k < was.len() && was[k] == b@[y];
                    assert(out@[k] == b@[y]);
                } else {
                    assert(out@[out@.len() - 1] == b@[y]);
                }
            }
            assert forall|k: int| 0 <= k < out@.len() implies a@.contains(#[trigger] out@[k])
                || b@.contains(out@[k]) by {
                if k < was.len() {
                    assert(out@[k] == was[k]);
                }
            }
        }
    }
    out
}

/// Sorts the entries from `from` up to `to`, which stand in the order of their
/// indices.
fn sort_range(v: &Vec<Ranked>, from: usize, to: usize) -> (r: Vec<Ranked>)
    requires
        from <= to <= v@.len(),
        forall|i: int, j: int|
            #![trigger v@[i], v@[j]]
            0 <= i < j < v@.len() ==> v@[i].index < v@[j].index,
    ensures
        in_rank_order(r@),
        r@.len() == to - from,
        forall|k: int|
            0 <= k < r@.len() ==> within(v@, from as int, to as int, #[trigger] r@[k]),
        forall|i: int| from <= i < to ==> r@.contains(#[trigger] v@[i]),
    decreases to - from,
{
    if to - from == 0 {
        return Vec::new();
    }
    if to - from == 1 {
        let mut out: Vec<Ranked> = Vec::new();
        out.push(v[from]);
        proof {
            assert(out@[0] == v@[from as int]);
            assert(within(v@, from as int, to as int, out@[0]));
        }
        return out;
    }
    let middle: usize = from + (to - from) / 2;
    let a = sort_range(v, from, middle);
    let b = sort_range(v, middle, to);
    proof {
        assert forall|i: int, j: int|
            #![trigger a@[i], b@[j]]
            0 <= i < a@.len() && 0 <= j < b@.len() implies a@[i].index < b@[j].index by {
            assert(within(v@, from as int, middle as int, a@[i]));
            assert(within(v@, middle as int, to as int, b@[j]));
        }
    }
    let out = merge(&a, &b);
    proof {
        assert forall|k: int| 0 <= k < out@.len() implies within(
            v@,
            from as int,
            to as int,
            #[trigger] out@[k],
        ) by {
            if a@.contains(out@[k]) {
                let x = choose|x: int| 0 <= x < a@.len() && a@[x] == out@[k];
                assert(within(v@, from as int, middle as int, a@[x]));
            } else {
                let y = choose|y: int| 0 <= y < b@.len() && b@[y] == out@[k];
                assert(within(v@, middle as int, to as int, b@[y]));
            }
        }
        assert forall|i: int| from <= i < to implies out@.contains(#[trigger] v@[i]) by {
            if i < middle {
                assert(a@.contains(v@[i]));
                let x = choose|x: int| 0 <= x < a@.len() && a@[x] == v@[i];
                assert(out@.contains(a@[x]));
            } else {
                assert(b@.contains(v@[i]));
                let y = choose|y: int| 0 <= y < b@.len() && b@[y] == v@[i];
                assert(out@.contains(b@[y]));
            }
        }
    }
    out
}

spec fn within(v: Seq<Ranked>, from: int, to: int, e: Ranked) -> bool {
    exists|i: int| from <= i < to && #[trigger] v[i] == e
}

/// Ranks the entries of a row that are chosen.
fn rank_row(row: &[Float32], chosen: &Vec<bool>) -> (r: Vec<Ranked>)
    requires
        chosen@.len() == row@.len(),
    ensures
        is_ranking(r@, row@, |k: int| chosen@[k]),
        r@.len() <= row@.len(),
{
    let mut list: Vec<Ranked> = Vec::new();
    let mut i: usize = 0;
    while i < row.len()
        invariant
            i <= row@.len(),
            chosen@.len() == row@.len(),
            list@.len() <= i,
            forall|x: int, y: int|
                #![trigger list@[x], list@[y]]
                0 <= x < y < list@.len() ==> list@[x].index < list@[y].index,
            forall|x: int|
                0 <= x < list@.len() ==> (#[trigger] list@[x]).index < i
                    && chosen@[list@[x].index as int] && list@[x].key
                    == -row@[list@[x].index as int].place(),
            forall|k: int| 0 <= k < i && #[trigger] chosen@[k] ==> ranks(list@, k),
        decreases row@.len() - i,
    {
        let ghost was = list@;
        if chosen[i] {
            list.push(Ranked { key: -row[i].order(), index: i });
        }
        proof {
            assert forall|k: int| 0 <= k < i + 1 && #[trigger] chosen@[k] implies ranks(
                list@,
                k,
            ) by {
                if k < i {
                    let x = choose|x: int| 0 <= x < was.len() && (#[trigger] was[x]).index == k;
                    assert(list@[x].index == k);
                } else {
                    assert(list@[list@.len() - 1].index == k);
                }
            }
        }
        i += 1;
    }
    let n: usize = list.len();
    let out = sort_range(&list, 0, n);
    proof {
        let counts = |k: int| chosen@[k];
        assert forall|x: int| 0 <= x < out@.len() implies (#[trigger] out@[x]).index < row@.len()
            && counts(out@[x].index as int) && out@[x].key == -row@[out@[x].index as int].place() by {
            assert(within(list@, 0, n as int, out@[x]));
            let y = choose|y: int| 0 <= y < n && #[trigger] list@[y] == out@[x];
            assert(list@[y].index < row@.len());
        }
        assert forall|k: int| 0 <= k < row@.len() && #[trigger] counts(k) implies ranks(
            out@,
            k,
        ) by {
            assert(chosen@[k]);
            let y = choose|y: int| 0 <= y < list@.len() && (#[trigger] list@[y]).index == k;
            assert(out@.contains(list@[y]));
            let x = choose|x: int| 0 <= x < out@.len() && out@[x] == list@[y];
            assert(out@[x].index == k);
        }
        assert(is_ranking(out@, row@, counts));
    }
    out
}

/// Whether entries are a ranking of the whole row.
pub open spec fn ranks_all(s: Seq<Ranked>, row: Seq<Float32>) -> bool {
    is_ranking(s, row, |i: int| true) && s.len() == row.len()
}

/// The row with every logit below the `k`-th largest masked.
pub open spec fn top_k_row(row: Seq<Float32>, ranking: Seq<Ranked>, k: int) -> Seq<Float32> {
    let threshold = row[ranking[k - 1].index as int];
    row.map_values(
        |l: Float32|
            if l.below(threshold) {
                spec_masked()
            } else {
                l
            },
    )
}

/// Whether this is what top-k leaves of a row.
pub open spec fn is_top_k(before: Seq<Float32>, after: Seq<Float32>, k: int) -> bool {
    exists|ranking: Seq<Ranked>|
        {
            &&& #[trigger] ranks_all(ranking, before)
            &&& after == top_k_row(before, ranking, k)
        }
}

/// Masks all but the `k` highest logits; entries equal to the `k`-th highest
/// stay.
///
/// `k == 0` or `k >= len` disables the filter.
pub fn apply_top_k(logits: &mut Vec<Float32>, k: usize)
    ensures
        if k == 0 || k >= old(logits)@.len() {
            final(logits)@ == old(logits)@
        } else {
            is_top_k(old(logits)@, final(logits)@, k as int)
        },
{
    let n: usize = logits.len();
    if k == 0 || k >= n {
        return;
    }
    let ghost before = logits@;
    let mut all: Vec<bool> = Vec::new();
    let mut i: usize = 0;
    while i < n
        invariant
            i <= n,
            all@.len() == i,
            forall|x: int| 0 <= x < i ==> #[trigger] all@[x],
        decreases n - i,
    {
        all.push(true);
        i += 1;
    }
    let ranking = rank_row(logits.as_slice(), &all);
    proof {
        lemma_full_ranking(ranking@, before, all@);
    }
    let threshold: Float32 = logits[ranking[k - 1].index];
    let mut j: usize = 0;
    while j < n
        invariant
            j <= n,
            n == logits@.len(),
            n == before.len(),
            forall|x: int|
                0 <= x < j ==> #[trigger] logits@[x] == if before[x].below(threshold) {
                    spec_masked()
                } else {
                    before[x]
                },
            forall|x: int| j <= x < n ==> #[trigger] logits@[x] == before[x],
        decreases n - j,
    {
        if logits[j].lt(threshold) {
            logits.set(j, masked());
        }
        j += 1;
    }
    proof {
        assert(logits@ =~= top_k_row(before, ranking@, k as int));
        assert(is_top_k(before, logits@, k as int));
    }
}

/// A ranking of every entry of a row is as long as the row.
proof fn lemma_full_ranking(ranking: Seq<Ranked>, row: Seq<Float32>, all: Seq<bool>)
    requires
        all.len() == row.len(),
        forall|x: int| 0 <= x < all.len() ==> #[trigger] all[x],
        is_ranking(ranking, row, |k: int| all[k]),
    ensures
        ranks_all(ranking, row),
{
    let counts = |k: int| all[k];
    let every = |i: int| true;
    assert forall|k: int| 0 <= k < row.len() && #[trigger] every(k) implies ranks(ranking, k) by {
        assert(counts(k));
    }
    assert(is_ranking(ranking, row, every));
    let indices = ranking.map_values(|e: Ranked| e.index as int);
    assert(indices.no_duplicates()) by {
        assert forall|i: int, j: int|
            0 <= i < indices.len() && 0 <= j < indices.len() && i != j implies indices[i]
            != indices[j] by {
            if i < j {
                assert(precedes(ranking[i], ranking[j]));
            } else {
                assert(precedes(ranking[j], ranking[i]));
            }
        }
    }
    let range = vstd::set_lib::set_int_range(0, row.len() as int);
    vstd::set_lib::lemma_int_range(0, row.len() as int);
    indices.unique_seq_to_set();
    assert(indices.to_set() =~= range) by {
        assert forall|k: int| range.contains(k) implies indices.to_set().contains(k) by {
            assert(every(k));
            let i = choose|i: int| 0 <= i < ranking.len() && (#[trigger] ranking[i]).index == k;
            assert(indices[i] == k);
        }
        assert forall|k: int| indices.to_set().contains(k) implies range.contains(k) by {
            let i = choose|i: int| 0 <= i < indices.len() && indices[i] == k;
            assert(ranking[i].index < row.len());
        }
    }
}

/// Whether an entry can be inside the nucleus: it has some probability, and it
/// is not masked.
pub open spec fn live(logits: Seq<Float32>, probs: Seq<Float32>, i: int) -> bool {
    Float32::spec_zero().below(probs[i]) && spec_masked().below(logits[i])
}

/// The live entries of a row, from the most probable down. Masked entries are
/// left out before the sort, which they would only slow.
pub fn nucleus_candidates(logits: &[Float32], probs: &[Float32]) -> (r: Vec<Ranked>)
    requires
        probs@.len() == logits@.len(),
    ensures
        is_ranking(r@, probs@, |i: int| live(logits@, probs@, i)),
{
    let mut chosen: Vec<bool> = Vec::new();
    let mut i: usize = 0;
    while i < logits.len()
        invariant
            i <= logits@.len(),
            probs@.len() == logits@.len(),
            chosen@.len() == i,
            forall|k: int| 0 <= k < i ==> #[trigger] chosen@[k] == live(logits@, probs@, k),
        decreases logits@.len() - i,
    {
        chosen.push(Float32::zero().lt(probs[i]) && masked().lt(logits[i]));
        i += 1;
    }
    let r = rank_row(probs, &chosen);
    proof {
        let counts = |k: int| chosen@[k];
        let alive = |i: int| live(logits@, probs@, i);
        assert forall|x: int| 0 <= x < r@.len() implies (#[trigger] r@[x]).index < probs@.len()
            && alive(r@[x].index as int) && r@[x].key == -probs@[r@[x].index as int].place() by {
            assert(counts(r@[x].index as int));
        }
        assert forall|k: int| 0 <= k < probs@.len() && #[trigger] alive(k) implies ranks(
            r@,
            k,
        ) by {
            assert(counts(k));
        }
        assert(is_ranking(r@, probs@, alive));
    }
    r
}

/// `a >= b`, which is false where either side is no number.
pub open spec fn reaches(a: Float32, b: Float32) -> bool {
    !a.nan() && !b.nan() && a.place() >= b.place()
}

/// Whether a nucleus filter does anything: not where the whole mass is wanted.
pub fn filters_nucleus(p: Float32) -> (r: bool)
    ensures
        r == !reaches(p, Float32::spec_one()),
{
    p.is_nan() || p.lt(Float32::one())
}

/// Whether the first `cutoff` candidates are those that are kept: up to and
/// with the one whose running sum reaches the wanted mass, all of them where
/// none does.
pub open spec fn is_cutoff(cumulative: Seq<Float32>, p: Float32, cutoff: int) -> bool {
    &&& 0 <= cutoff <= cumulative.len()
    &&& forall|i: int| 0 <= i < cutoff - 1 ==> !reaches(#[trigger] cumulative[i], p)
    &&& cutoff < cumulative.len() ==> cutoff > 0 && reaches(cumulative[cutoff - 1], p)
    &&& cumulative.len() > 0 ==> cutoff > 0
}

/// Masks the tail of the distribution beyond cumulative probability `p`:
/// `candidates` are the live entries from the most probable down, and
/// `cumulative` their running sums of probability.
///
/// The candidate that crosses the threshold is kept, so the retained mass is
/// at least `p` and the set is never empty.
pub fn apply_top_p(
    logits: &mut Vec<Float32>,
    candidates: &Vec<Ranked>,
    cumulative: &[Float32],
    p: Float32,
) -> (cutoff: usize)
    requires
        cumulative@.len() == candidates@.len(),
        forall|i: int|
            0 <= i < candidates@.len() ==> (#[trigger] candidates@[i]).index < old(logits)@.len(),
        in_rank_order(candidates@),
    ensures
        is_cutoff(cumulative@, p, cutoff as int),
        final(logits)@.len() == old(logits)@.len(),
        forall|i: int|
            0 <= i < old(logits)@.len() ==> #[trigger] final(logits)@[i] == if ranks(
                candidates@.skip(cutoff as int),
                i,
            ) {
                spec_masked()
            } else {
                old(logits)@[i]
            },
{
    let n: usize = candidates.len();
    let mut cutoff: usize = n;
    let mut rank: usize = 0;
    while rank < n
        invariant_except_break
            cutoff == n,
        invariant
            rank <= n,
            n == cumulative@.len(),
            forall|i: int| 0 <= i < rank ==> !reaches(#[trigger] cumulative@[i], p),
        ensures
            is_cutoff(cumulative@, p, cutoff as int),
        decreases n - rank,
    {
        let c: Float32 = cumulative[rank];
        if !c.is_nan() && !p.is_nan() && !c.lt(p) {
            cutoff = rank + 1;
            break;
        }
        rank += 1;
    }
    let ghost before = logits@;
    let ghost tail = candidates@.skip(cutoff as int);
    let mut at: usize = cutoff;
    while at < n
        invariant
            cutoff <= at <= n,
            n == candidates@.len(),
            tail == candidates@.skip(cutoff as int),
            logits@.len() == before.len(),
            forall|i: int|
                0 <= i < candidates@.len() ==> (#[trigger] candidates@[i]).index < before.len(),
            forall|i: int|
                0 <= i < before.len() ==> #[trigger] logits@[i] == if ranks(
                    tail.take(at - cutoff),
                    i,
                ) {
                    spec_masked()
                } else {
                    before[i]
                },
        decreases n - at,
    {
        let ghost was = logits@;
        let index: usize = candidates[at].index;
        logits.set(index, masked());
        proof {
            let done = tail.take(at - cutoff);
            let more = tail.take(at + 1 - cutoff);
            assert(more =~= done.push(candidates@[at as int]));
            assert forall|i: int| 0 <= i < before.len() implies #[trigger] logits@[i] == if ranks(
                more,
                i,
            ) {
                spec_masked()
            } else {
                before[i]
            } by {
                assert(was[i] == if ranks(done, i) {
                    spec_masked()
                } else {
                    before[i]
                });
                if ranks(done, i) {
                    let x = choose|x: int| 0 <= x < done.len() && (#[trigger] done[x]).index == i;
                    assert(more[x].index == i);
                }
                if i == index {
                    assert(more[more.len() - 1].index == i);
                }
                if ranks(more, i) && i != index {
                    let x = choose|x: int| 0 <= x < more.len() && (#[trigger] more[x]).index == i;
                    assert(x < done.len());
                    assert(done[x].index == i);
                }
            }
        }
        at += 1;
    }
    proof {
        assert(tail.take(n - cutoff) =~= tail);
    }
    cutoff
}

/// A filter never masks every candidate: the most probable one survives.
pub proof fn law_the_nucleus_is_never_empty(cumulative: Seq<Float32>, p: Float32, cutoff: int)
    requires
        is_cutoff(cumulative, p, cutoff),
        cumulative.len() > 0,
    ensures
        0 < cutoff <= cumulative.len(),
{
}

/// Whether an index is the one that a draw gives: the first whose running sum
/// is above the drawn number; past all of them, the last entry with some
/// probability, or simply the last.
pub open spec fn is_drawn(
    probs: Seq<Float32>,
    cumulative: Seq<Float32>,
    r: Float32,
    at: int,
) -> bool {
    ||| {
        &&& 0 <= at < cumulative.len()
        &&& r.below(cumulative[at])
        &&& forall|i: int| 0 <= i < at ==> !r.below(#[trigger] cumulative[i])
    }
    ||| {
        &&& forall|i: int| 0 <= i < cumulative.len() ==> !r.below(#[trigger] cumulative[i])
        &&& 0 <= at < probs.len()
        &&& forall|i: int|
            at < i < probs.len() ==> !Float32::spec_zero().below(#[trigger] probs[i])
        &&& Float32::spec_zero().below(probs[at]) || (at == probs.len() - 1 && forall|i: int|
            0 <= i < probs.len() ==> !Float32::spec_zero().below(#[trigger] probs[i]))
    }
}

/// Draws an index from a distribution: `cumulative` are the running sums of
/// `probs`, and `r` was drawn from the unit interval.
///
/// Floating-point accumulation can leave `r` fractionally above the total.
pub fn draw(probs: &[Float32], cumulative: &[Float32], r: Float32) -> (at: usize)
    requires
        probs@.len() > 0,
        cumulative@.len() == probs@.len(),
    ensures
        is_drawn(probs@, cumulative@, r, at as int),
        at < probs@.len(),
{
    let n: usize = probs.len();
    let mut i: usize = 0;
    while i < n
        invariant
            i <= n,
            n == probs@.len(),
            n == cumulative@.len(),
            forall|k: int| 0 <= k < i ==> !r.below(#[trigger] cumulative@[k]),
        decreases n - i,
    {
        if r.lt(cumulative[i]) {
            return i;
        }
        i += 1;
    }
    let mut j: usize = n;
    while j > 0
        invariant
            j <= n,
            n == probs@.len(),
            n == cumulative@.len(),
            forall|k: int| 0 <= k < n ==> !r.below(#[trigger] cumulative@[k]),
            forall|k: int| j <= k < n ==> !Float32::spec_zero().below(#[trigger] probs@[k]),
        decreases j,
    {
        if Float32::zero().lt(probs[j - 1]) {
            return j - 1;
        }
        j -= 1;
    }
    n - 1
}

/// What top-k leaves of a row: an entry that is not below the `k`-th largest stays
/// as it is, and one that is below it is masked, so that each of the `k` largest
/// is above every masked one.
pub proof fn law_top_k_keeps_the_largest(
    before: Seq<Float32>,
    after: Seq<Float32>,
    k: int,
    i: int,
) -> (ranking: Seq<Ranked>)
    requires
        is_top_k(before, after, k),
        0 < k <= before.len(),
        0 <= i < before.len(),
    ensures
        ranks_all(ranking, before),
        after.len() == before.len(),
        after[i] == before[i] || after[i].bits == 0xf149_f2ca,
        !before[i].below(before[ranking[k - 1].index as int]) ==> after[i] == before[i],
        before[i].below(before[ranking[k - 1].index as int]) ==> after[i].bits == 0xf149_f2ca,
        before[i].below(before[ranking[k - 1].index as int]) ==> forall|m: int|
            0 <= m < k ==> before[i].place() < before[(#[trigger] ranking[m]).index as int].place(),
{
    let ranking = choose|ranking: Seq<Ranked>|
        {
            &&& #[trigger] ranks_all(ranking, before)
            &&& after == top_k_row(before, ranking, k)
        };
    assert forall|m: int|
        0 <= m < k && before[i].below(before[ranking[k - 1].index as int]) implies before[i].place()
        < before[(#[trigger] ranking[m]).index as int].place() by {
        if m < k - 1 {
            assert(precedes(ranking[m], ranking[k - 1]));
        }
        assert(ranking[m].key == -before[ranking[m].index as int].place());
        assert(ranking[k - 1].key == -before[ranking[k - 1].index as int].place());
    }
    ranking
}

/// A ranking goes from the largest number down, entries with one number in the order
/// of their places in the row, and has each entry of the row that counts once.
pub proof fn law_rankings_descend(
    s: Seq<Ranked>,
    row: Seq<Float32>,
    counts: spec_fn(int) -> bool,
    i: int,
    j: int,
)
    requires
        is_ranking(s, row, counts),
        0 <= i < j < s.len(),
    ensures
        row[s[i].index as int].place() >= row[s[j].index as int].place(),
        row[s[i].index as int].place() == row[s[j].index as int].place() ==> s[i].index < s[j].index,
        s[i].index != s[j].index,
        counts(s[i].index as int),
{
    assert(precedes(s[i], s[j]));
}

/// The nucleus ends with the first candidate at which the running sum reaches the
/// wanted mass, and has all candidates where it is never reached.
pub proof fn law_the_nucleus_ends_where_the_mass_is_reached(
    cumulative: Seq<Float32>,
    p: Float32,
    cutoff: int,
    i: int,
)
    requires
        is_cutoff(cumulative, p, cutoff),
        0 <= i < cumulative.len(),
    ensures
        (p.below(cumulative[i]) || p.same(cumulative[i])) && (forall|j: int|
            0 <= j < i ==> !p.below(#[trigger] cumulative[j]) && !p.same(cumulative[j]))
            ==> cutoff == i + 1,
        (forall|j: int|
            0 <= j < cumulative.len() ==> !p.below(#[trigger] cumulative[j]) && !p.same(
                cumulative[j],
            )) ==> cutoff == cumulative.len(),
{
    if (p.below(cumulative[i]) || p.same(cumulative[i])) && (forall|j: int|
        0 <= j < i ==> !p.below(#[trigger] cumulative[j]) && !p.same(cumulative[j])) {
        assert(reaches(cumulative[i], p));
        if cutoff > i + 1 {
            assert(!reaches(cumulative[i], p));
        }
        if cutoff < i + 1 {
            let c = cumulative[cutoff - 1];
            assert(reaches(c, p));
            assert(!p.below(c) && !p.same(c));
        }
    }
    if forall|j: int|
        0 <= j < cumulative.len() ==> !p.below(#[trigger] cumulative[j]) && !p.same(
            cumulative[j],
        ) {
        if cutoff < cumulative.len() {
            let c = cumulative[cutoff - 1];
            assert(reaches(c, p));
            assert(!p.below(c) && !p.same(c));
        }
    }
}

/// A draw gives the first entry whose running sum is above the drawn number; past
/// all sums, the last entry that has some probability.
pub proof fn law_draws_take_the_first_sum_above(
    probs: Seq<Float32>,
    cumulative: Seq<Float32>,
    r: Float32,
    at: int,
    i: int,
)
    requires
        is_drawn(probs, cumulative, r, at),
        cumulative.len() == probs.len(),
        0 <= i < probs.len(),
    ensures
        r.below(cumulative[i]) && (forall|j: int|
            0 <= j < i ==> !r.below(#[trigger] cumulative[j])) ==> at == i,
        (forall|j: int| 0 <= j < cumulative.len() ==> !r.below(#[trigger] cumulative[j]))
            && Float32::spec_zero().below(probs[i]) && (forall|j: int|
            i < j < probs.len() ==> !Float32::spec_zero().below(#[trigger] probs[j])) ==> at == i,
{
}

/// An entry can be in the nucleus exactly where its probability is above zero and
/// its logit above the mask.
pub proof fn law_live_entries_are_possible(logits: Seq<Float32>, probs: Seq<Float32>, i: int)
    ensures
        0 < probs[i].bits <= 0x7f80_0000 && logits[i].bits <= 0x7f80_0000 ==> live(
            logits,
            probs,
            i,
        ),
        probs[i].bits == 0 || logits[i].bits == 0xf149_f2ca ==> !live(logits, probs, i),
{
}

} // verus!
