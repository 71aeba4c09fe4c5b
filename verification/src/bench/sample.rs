//! Measured requests, and the distribution of what was measured.

use vstd::prelude::*;

verus! {

/// One request's measured timings, in nanoseconds.
#[derive(Debug, Clone, Copy, PartialEq, Eq, Structural)]
pub struct RequestSample {
    pub ttft: Option<u64>,
    pub total: u64,
    pub prompt_tokens: usize,
    pub completion_tokens: usize,
    pub success: bool,
}

impl RequestSample {
    /// The mean time per output token after the first, rounded down.
    pub open spec fn per_token(self) -> Option<u64> {
        match self.ttft {
            None => None,
            Some(ttft) => if self.completion_tokens < 2 || self.total < ttft {
                None
            } else {
                Some(((self.total - ttft) / (self.completion_tokens - 1)) as u64)
            },
        }
    }

    /// Mean time per output token, excluding the first.
    ///
    /// `None` below two tokens: it is undefined there rather than zero, and
    /// reporting zero would drag an average down misleadingly.
    pub fn tpot(&self) -> (r: Option<u64>)
        ensures
            r == self.per_token(),
    {
        let ttft: u64 = match self.ttft {
            Some(ttft) => ttft,
            None => {
                return None;
            },
        };
        if self.completion_tokens < 2 || self.total < ttft {
            return None;
        }
        let gaps: u64 = self.completion_tokens as u64 - 1;
        Some((self.total - ttft) / gaps)
    }

    pub fn failed(prompt_tokens: usize) -> (r: Self)
        ensures
            r == (RequestSample {
                ttft: None,
                total: 0,
                prompt_tokens,
                completion_tokens: 0,
                success: false,
            }),
    {
        RequestSample { ttft: None, total: 0, prompt_tokens, completion_tokens: 0, success: false }
    }
}

/// The time from one instant to another, zero where the other is earlier.
pub open spec fn since(start: u64, t: u64) -> u64 {
    if t >= start {
        (t - start) as u64
    } else {
        0
    }
}

fn elapsed(start: u64, t: u64) -> (r: u64)
    ensures
        r == since(start, t),
{
    if t >= start {
        t - start
    } else {
        0
    }
}

/// Measures one request's timings from the instants at which tokens arrived.
pub fn measure(start: u64, token_times: &[u64], prompt_tokens: usize) -> (r: RequestSample)
    ensures
        r.ttft == if token_times@.len() == 0 {
            None
        } else {
            Some(since(start, token_times@[0]))
        },
        r.total == if token_times@.len() == 0 {
            0
        } else {
            since(start, token_times@.last())
        },
        r.prompt_tokens == prompt_tokens,
        r.completion_tokens == token_times@.len(),
        r.success,
{
    let n: usize = token_times.len();
    if n == 0 {
        return RequestSample {
            ttft: None,
            total: 0,
            prompt_tokens,
            completion_tokens: 0,
            success: true,
        };
    }
    RequestSample {
        ttft: Some(elapsed(start, token_times[0])),
        total: elapsed(start, token_times[n - 1]),
        prompt_tokens,
        completion_tokens: n,
        success: true,
    }
}

/// Whether `serde_json::from_str` reads a text as JSON.
pub uninterp spec fn json_text(text: Seq<char>) -> bool;

/// Whether a text is JSON that has a string at the place which
/// `serde_json::Value::pointer` finds.
pub uninterp spec fn json_is_string(text: Seq<char>, place: Seq<char>) -> bool;

/// Whether a text is JSON that has an array at the place which
/// `serde_json::Value::pointer` finds.
pub uninterp spec fn json_is_array(text: Seq<char>, place: Seq<char>) -> bool;

/// The whole number, if any, that a text has in JSON at the place which
/// `serde_json::Value::pointer` finds.
pub uninterp spec fn json_count(text: Seq<char>, place: Seq<char>) -> Option<u64>;

/// Calls `serde_json::from_str` for any JSON value. Whether it reads one is a
/// function of the text and named by [`json_text`].
#[verifier::external_body]
fn is_json(text: &str) -> (r: bool)
    ensures
        r == json_text(text@),
{
    serde_json::from_str::<serde_json::Value>(text).is_ok()
}

/// Calls `serde_json::Value::pointer` on what `serde_json::from_str` reads.
/// Whether that finds a string is named by [`json_is_string`].
#[verifier::external_body]
fn is_string_at(text: &str, place: &str) -> (r: bool)
    ensures
        r == json_is_string(text@, place@),
{
    match serde_json::from_str::<serde_json::Value>(text) {
        Ok(value) => value.pointer(place).is_some_and(|v| v.is_string()),
        Err(_) => false,
    }
}

/// Calls `serde_json::Value::pointer` on what `serde_json::from_str` reads.
/// Whether that finds an array is named by [`json_is_array`].
#[verifier::external_body]
fn is_array_at(text: &str, place: &str) -> (r: bool)
    ensures
        r == json_is_array(text@, place@),
{
    match serde_json::from_str::<serde_json::Value>(text) {
        Ok(value) => value.pointer(place).is_some_and(|v| v.is_array()),
        Err(_) => false,
    }
}

/// Calls `serde_json::Value::pointer` on what `serde_json::from_str` reads. The
/// number that `serde_json::Value::as_u64` makes of what that finds is named by
/// [`json_count`].
#[verifier::external_body]
fn count_at(text: &str, place: &str) -> (r: Option<u64>)
    ensures
        r == json_count(text@, place@),
{
    match serde_json::from_str::<serde_json::Value>(text) {
        Ok(value) => value.pointer(place).and_then(|v| v.as_u64()),
        Err(_) => None,
    }
}

/// What a streaming client has seen of one response.
#[derive(Debug, Clone, Copy, PartialEq, Eq, Structural)]
pub struct Tally {
    pub first_token: Option<u64>,
    pub tokens: usize,
    pub prompt_tokens: usize,
}

impl Tally {
    pub fn new() -> (r: Tally)
        ensures
            r == (Tally { first_token: None, tokens: 0, prompt_tokens: 0 }),
    {
        Tally { first_token: None, tokens: 0, prompt_tokens: 0 }
    }

    /// Takes note of one frame: whether it carried content, and the prompt
    /// length where it stated one.
    pub fn observe(&mut self, has_content: bool, prompt_tokens: Option<usize>, now: u64)
        requires
            old(self).tokens < usize::MAX,
        ensures
            final(self).first_token == if has_content && old(self).first_token is None {
                Some(now)
            } else {
                old(self).first_token
            },
            final(self).tokens == old(self).tokens + if has_content {
                1int
            } else {
                0
            },
            final(self).prompt_tokens == match prompt_tokens {
                Some(p) => p,
                None => old(self).prompt_tokens,
            },
    {
        if has_content {
            if self.first_token.is_none() {
                self.first_token = Some(now);
            }
            self.tokens = self.tokens + 1;
        }
        match prompt_tokens {
            Some(p) => {
                self.prompt_tokens = p;
            },
            None => {},
        }
    }

    /// Takes note of the payload of one event. One that is no JSON is passed
    /// over; a delta with text counts as a token, and the usage states the
    /// prompt length.
    pub fn take_payload(&mut self, payload: &str, now: u64)
        requires
            old(self).tokens < usize::MAX,
        ensures
            if json_text(payload@) {
                let has_content = json_is_array(payload@, "/choices"@) && json_is_string(
                    payload@,
                    "/choices/0/delta/content"@,
                );
                &&& final(self).first_token == if has_content && old(self).first_token is None {
                    Some(now)
                } else {
                    old(self).first_token
                }
                &&& final(self).tokens == old(self).tokens + if has_content {
                    1int
                } else {
                    0
                }
                &&& final(self).prompt_tokens == match json_count(
                    payload@,
                    "/usage/prompt_tokens"@,
                ) {
                    Some(p) => p as usize,
                    None => old(self).prompt_tokens,
                }
            } else {
                *final(self) == *old(self)
            },
    {
        if !is_json(payload) {
            return ;
        }
        let has_content: bool = is_array_at(payload, "/choices") && is_string_at(
            payload,
            "/choices/0/delta/content",
        );
        let prompt_tokens: Option<usize> = match count_at(payload, "/usage/prompt_tokens") {
            Some(p) => Some(p as usize),
            None => None,
        };
        self.observe(has_content, prompt_tokens, now);
    }

    /// The sample of a response that ended. One without content failed.
    pub fn finish(self, start: u64, end: u64) -> (r: RequestSample)
        ensures
            r == (RequestSample {
                ttft: match self.first_token {
                    Some(t) => Some(since(start, t)),
                    None => None,
                },
                total: since(start, end),
                prompt_tokens: self.prompt_tokens,
                completion_tokens: self.tokens,
                success: self.tokens > 0,
            }),
    {
        RequestSample {
            ttft: match self.first_token {
                Some(t) => Some(elapsed(start, t)),
                None => None,
            },
            total: elapsed(start, end),
            prompt_tokens: self.prompt_tokens,
            completion_tokens: self.tokens,
            success: self.tokens > 0,
        }
    }
}

/// Distribution summary of a sample. The mean is `sum` over `count`.
#[derive(Debug, Clone, Copy, PartialEq, Eq, Structural)]
pub struct Percentiles {
    pub sum: u128,
    pub count: usize,
    pub p50: u64,
    pub p90: u64,
    pub p95: u64,
    pub p99: u64,
    pub min: u64,
    pub max: u64,
}

/// The sum of a sample.
pub open spec fn sum_of(values: Seq<u64>) -> int
    decreases values.len(),
{
    if values.len() == 0 {
        0
    } else {
        sum_of(values.drop_last()) + values.last()
    }
}

pub open spec fn in_order(values: Seq<u64>) -> bool {
    forall|i: int, j: int|
        #![trigger values[i], values[j]]
        0 <= i <= j < values.len() ==> values[i] <= values[j]
}

/// The place of the nearest-rank percentile in a sorted sample of `n`: the
/// smallest place at or below which at least that share of the sample lies.
pub open spec fn rank(percent: int, n: int) -> int {
    (percent * n + 99) / 100 - 1
}

impl Percentiles {
    /// Whether this is the summary of a sample, `sorted` being the sample in
    /// order.
    pub open spec fn summarises(self, values: Seq<u64>, sorted: Seq<u64>) -> bool {
        let n = sorted.len() as int;
        &&& n > 0
        &&& in_order(sorted)
        &&& sorted.to_multiset() == values.to_multiset()
        &&& self.sum == sum_of(values)
        &&& self.count == values.len()
        &&& self.p50 == sorted[rank(50, n)]
        &&& self.p90 == sorted[rank(90, n)]
        &&& self.p95 == sorted[rank(95, n)]
        &&& self.p99 == sorted[rank(99, n)]
        &&& self.min == sorted[0]
        &&& self.max == sorted[n - 1]
    }

    /// Whether this is the summary of a sample.
    pub open spec fn is_summary_of(self, values: Seq<u64>) -> bool {
        exists|sorted: Seq<u64>| #[trigger] self.summarises(values, sorted)
    }

    /// Summarises a sample.
    ///
    /// Returns `None` for an empty sample rather than zeros: "no data" and
    /// "zero latency" must not look the same in a results table.
    pub fn from_nanos(values: &Vec<u64>) -> (r: Option<Self>)
        ensures
            match r {
                None => values@.len() == 0,
                Some(p) => values@.len() > 0 && p.is_summary_of(values@),
            },
    {
        if values.len() == 0 {
            return None;
        }
        let sorted = in_ascending_order(values);
        let n: usize = sorted.len();
        proof {
            sorted@.to_multiset_ensures();
            values@.to_multiset_ensures();
        }
        let p = Percentiles {
            sum: sum(values),
            count: values.len(),
            p50: percentile(&sorted, 50),
            p90: percentile(&sorted, 90),
            p95: percentile(&sorted, 95),
            p99: percentile(&sorted, 99),
            min: sorted[0],
            max: sorted[n - 1],
        };
        proof {
            assert(p.summarises(values@, sorted@));
            assert(p.is_summary_of(values@));
        }
        Some(p)
    }
}

/// Nearest-rank percentile of a sorted sample.
///
/// Nearest-rank rather than interpolated: with the sample sizes a load test
/// produces, an interpolated p99 invents a value that was never observed.
fn percentile(sorted: &Vec<u64>, percent: u64) -> (r: u64)
    requires
        sorted@.len() > 0,
        1 <= percent <= 100,
    ensures
        0 <= rank(percent as int, sorted@.len() as int) < sorted@.len(),
        r == sorted@[rank(percent as int, sorted@.len() as int)],
{
    let n: usize = sorted.len();
    proof {
        let m = n as int;
        let q = percent as int;
        assert(1 <= q * m <= 100 * m) by (nonlinear_arith)
            requires
                1 <= q <= 100,
                1 <= m,
        ;
        assert(q * m <= 100 * 0xffff_ffff_ffff_ffff);
    }
    let at: u128 = (percent as u128 * n as u128 + 99) / 100 - 1;
    sorted[at as usize]
}

fn sum(values: &Vec<u64>) -> (r: u128)
    ensures
        r == sum_of(values@),
{
    let mut total: u128 = 0;
    let n: usize = values.len();
    let mut i: usize = 0;
    while i < n
        invariant
            i <= n,
            n == values@.len(),
            total == sum_of(values@.take(i as int)),
            total <= i * 0xffff_ffff_ffff_ffff,
        decreases n - i,
    {
        proof {
            assert(values@.take(i + 1).drop_last() =~= values@.take(i as int));
            assert(i * 0xffff_ffff_ffff_ffff <= 0xffff_ffff_ffff_ffff * 0xffff_ffff_ffff_ffff)
                by (nonlinear_arith)
                requires
                    i <= 0xffff_ffff_ffff_ffff,
            ;
            assert((i + 1) * 0xffff_ffff_ffff_ffff == i * 0xffff_ffff_ffff_ffff
                + 0xffff_ffff_ffff_ffff) by (nonlinear_arith);
        }
        total = total + values[i] as u128;
        i += 1;
    }
    proof {
        assert(values@.take(n as int) =~= values@);
    }
    total
}

/// A sample in ascending order.
fn in_ascending_order(values: &Vec<u64>) -> (r: Vec<u64>)
    ensures
        in_order(r@),
        r@.to_multiset() == values@.to_multiset(),
        r@.len() == values@.len(),
{
    let mut out: Vec<u64> = Vec::new();
    let mut i: usize = 0;
    proof {
        assert(values@.take(0) =~= Seq::<u64>::empty());
        assert(out@ =~= Seq::<u64>::empty());
    }
    while i < values.len()
        invariant
            i <= values@.len(),
            in_order(out@),
            out@.len() == i,
            out@.to_multiset() == values@.take(i as int).to_multiset(),
        decreases values@.len() - i,
    {
        let v: u64 = values[i];
        let ghost was = out@;
        let mut at: usize = out.len();
        while at > 0 && out[at - 1] > v
            invariant
                at <= out@.len(),
                out@ == was,
                forall|k: int| at <= k < out@.len() ==> #[trigger] out@[k] > v,
            decreases at,
        {
            at -= 1;
        }
        out.insert(at, v);
        proof {
            was.to_multiset_ensures();
            values@.take(i as int).to_multiset_ensures();
            assert(values@.take(i + 1) =~= values@.take(i as int).push(v));
            assert(out@ == was.insert(at as int, v));
            was.insert_ensures(at as int, v);
            assert(out@.remove(at as int) =~= was);
            out@.to_multiset_ensures();
            assert(out@.contains(v)) by {
                assert(out@[at as int] == v);
            }
            assert(out@.to_multiset() =~= was.to_multiset().insert(v));
            assert forall|x: int, y: int|
                #![trigger out@[x], out@[y]]
                0 <= x <= y < out@.len() implies out@[x] <= out@[y] by {
                if y < at {
                    assert(out@[x] == was[x] && out@[y] == was[y]);
                } else if y == at {
                    if x < at {
                        assert(out@[x] == was[x]);
                        assert(was[x] <= was[at - 1]);
                    }
                } else {
                    assert(out@[y] == was[y - 1]);
                    if x < at {
                        assert(out@[x] == was[x]);
                    } else if x > at {
                        assert(out@[x] == was[x - 1]);
                    }
                }
            }
        }
        i += 1;
    }
    proof {
        assert(values@.take(values@.len() as int) =~= values@);
    }
    out
}

/// A rank is a place in the sample, and a higher share has no lower place.
pub proof fn lemma_rank(low: int, high: int, n: int)
    requires
        1 <= low <= high <= 100,
        n > 0,
    ensures
        0 <= rank(low, n) <= rank(high, n) < n,
{
    assert(n <= low * n <= high * n <= 100 * n) by (nonlinear_arith)
        requires
            1 <= low <= high <= 100,
            n > 0,
    ;
}

/// Percentiles do not depend on the order in which the sample was taken.
pub proof fn law_percentiles_ignore_the_order(
    p: Percentiles,
    q: Percentiles,
    a: Seq<u64>,
    b: Seq<u64>,
    x: Seq<u64>,
    y: Seq<u64>,
)
    requires
        a.to_multiset() == b.to_multiset(),
        p.summarises(a, x),
        q.summarises(b, y),
    ensures
        p.p50 == q.p50,
        p.p90 == q.p90,
        p.p95 == q.p95,
        p.p99 == q.p99,
        p.min == q.min,
        p.max == q.max,
{
    vstd::seq_lib::lemma_sorted_unique(x, y, |s: u64, t: u64| s <= t);
}

/// Percentiles are values that were observed, none lies outside the smallest
/// and the largest, and a higher share gives no lower value.
pub proof fn law_percentiles_were_observed(p: Percentiles, values: Seq<u64>, sorted: Seq<u64>)
    requires
        p.summarises(values, sorted),
    ensures
        values.contains(p.p50),
        values.contains(p.p90),
        values.contains(p.p95),
        values.contains(p.p99),
        values.contains(p.min),
        values.contains(p.max),
        p.min <= p.p50 <= p.p90 <= p.p95 <= p.p99 <= p.max,
{
    let n = sorted.len() as int;
    lemma_rank(50, 90, n);
    lemma_rank(90, 95, n);
    lemma_rank(95, 99, n);
    values.to_multiset_ensures();
    sorted.to_multiset_ensures();
    assert(sorted.contains(p.p50) && sorted.to_multiset().count(p.p50) > 0);
    assert(sorted.contains(p.p90) && sorted.to_multiset().count(p.p90) > 0);
    assert(sorted.contains(p.p95) && sorted.to_multiset().count(p.p95) > 0);
    assert(sorted.contains(p.p99) && sorted.to_multiset().count(p.p99) > 0);
    assert(sorted.contains(p.min) && sorted.to_multiset().count(p.min) > 0);
    assert(sorted.contains(p.max) && sorted.to_multiset().count(p.max) > 0);
}

} // verus!
