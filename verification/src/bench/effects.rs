//! What the figures of a load test mean, and how its streams are read.

use crate::bench::frames::{
    beyond, first_at, first_line, is_frame, line_with, place, release, trimmed, trimmed_end,
    trimmed_start, until, without_commas, Frame,
};
use crate::bench::report::{
    completion_total, first_times, no_latency, prompt_total, successes, summary, token_times,
    total_times, RunMetadata,
};
use crate::bench::sample::{rank, since, sum_of, Percentiles, RequestSample};
use crate::bench::workload::WorkloadShape;
use crate::config::white_space;
use crate::text::decimal;
use crate::tokenizer::chars::{occurs, occurs_at};
use vstd::prelude::*;

verus! {

// ----- figures --------------------------------------------------------------------

/// The nearest rank of a share: with it at least that share of the sample is
/// covered, and with one place less it is not.
pub proof fn law_nearest_ranks(percent: int, n: int)
    requires
        1 <= percent <= 100,
        n > 0,
    ensures
        100 * (rank(percent, n) + 1) >= percent * n,
        100 * rank(percent, n) < percent * n,
        0 <= rank(percent, n) < n,
        rank(100, n) == n - 1,
{
    let x = percent * n;
    assert(1 <= x <= 100 * n) by (nonlinear_arith)
        requires
            1 <= percent <= 100,
            n > 0,
            x == percent * n,
    ;
}

/// A summary has the sum and the number of its values, the smallest and the largest
/// of them, and the values at the nearest ranks of the four shares.
pub proof fn law_summaries(p: Percentiles, values: Seq<u64>, sorted: Seq<u64>, i: int)
    requires
        p.summarises(values, sorted),
        0 <= i < sorted.len(),
    ensures
        p.sum == sum_of(values),
        p.count == values.len(),
        p.min <= sorted[i] <= p.max,
        p.p50 == sorted[(50 * sorted.len() + 99) / 100 - 1],
        p.p90 == sorted[(90 * sorted.len() + 99) / 100 - 1],
        p.p95 == sorted[(95 * sorted.len() + 99) / 100 - 1],
        p.p99 == sorted[(99 * sorted.len() + 99) / 100 - 1],
        sorted.to_multiset() == values.to_multiset(),
        i > 0 ==> sorted[i - 1] <= sorted[i],
{
}

/// A sum grows by each value.
pub proof fn law_sums_grow(values: Seq<u64>, more: u64)
    ensures
        sum_of(seq![]) == 0,
        sum_of(values.push(more)) == sum_of(values) + more,
{
    assert(values.push(more).drop_last() =~= values);
}

/// The time per token is the time after the first token over the tokens after the
/// first, rounded down; it is undefined for fewer than two tokens.
pub proof fn law_time_per_token(s: RequestSample)
    ensures
        s.ttft is None || s.completion_tokens < 2 ==> s.per_token() is None,
        s.ttft matches Some(t) ==> s.completion_tokens >= 2 && t <= s.total ==> (
        s.per_token() matches Some(v) && v * (s.completion_tokens - 1) <= s.total - t && s.total - t
            < (v + 1) * (s.completion_tokens - 1)),
        s.ttft matches Some(t) ==> s.total < t ==> s.per_token() is None,
{
    if let Some(t) = s.ttft {
        if s.completion_tokens >= 2 && t <= s.total {
            let a = s.total - t;
            let n = s.completion_tokens - 1;
            vstd::arithmetic::div_mod::lemma_fundamental_div_mod(a, n);
            vstd::arithmetic::div_mod::lemma_mod_bound(a, n);
            let q = a / n;
            assert(q * n <= a && a < (q + 1) * n) by (nonlinear_arith)
                requires
                    a == n * q + a % n,
                    0 <= a % n < n,
            ;
            assert(0 <= q <= a) by (nonlinear_arith)
                requires
                    q * n <= a,
                    n >= 1,
                    a < (q + 1) * n,
                    a >= 0,
            ;
        }
    }
}

/// The time since an instant is the distance to it, none where it is later.
pub proof fn law_time_since(start: u64, t: u64)
    ensures
        start <= t ==> start + since(start, t) == t,
        t <= start ==> since(start, t) == 0,
{
}

/// One more sample adds its own tokens and times, where it has them.
pub proof fn law_a_sample_adds_itself(samples: Seq<RequestSample>, more: RequestSample)
    ensures
        prompt_total(samples.push(more)) == prompt_total(samples) + more.prompt_tokens,
        completion_total(samples.push(more)) == completion_total(samples) + more.completion_tokens,
        more.ttft matches Some(t) ==> first_times(samples.push(more)) == first_times(samples).push(
            t,
        ),
        more.ttft is None ==> first_times(samples.push(more)) == first_times(samples),
        more.per_token() matches Some(t) ==> token_times(samples.push(more)) == token_times(
            samples,
        ).push(t),
        more.per_token() is None ==> token_times(samples.push(more)) == token_times(samples),
        total_times(samples.push(more)) == total_times(samples).push(more.total),
        more.success ==> successes(samples.push(more)) == successes(samples).push(more),
        prompt_total(seq![]) == 0 && completion_total(seq![]) == 0,
        first_times(seq![]).len() == 0 && token_times(seq![]).len() == 0,
{
    reveal(Seq::filter);
    assert(samples.push(more).drop_last() =~= samples);
    assert(total_times(samples.push(more)) =~= total_times(samples).push(more.total));
}

/// What a summary says of its device: the name, or plainly that there was none.
pub proof fn law_the_device_is_stated(m: RunMetadata)
    ensures
        m.gpu matches Some(name) ==> m.device_text() == "GPU:             "@ + name@ + "\n"@,
        m.gpu is None ==> m.device_text()
            == "GPU:             none detected - THIS IS A CPU-ONLY RESULT\n"@,
        m.hardware_text() == "hardware:        "@ + m.os@ + " "@ + m.arch@ + " ("@ + decimal(
            m.cpu_cores as nat,
        ) + " cores)\n"@ + m.device_text() + "model:           "@ + m.model@ + "\n"@
            + "precision:       "@ + m.precision@ + "\n"@,
{
}

/// The names of the workloads, and their order.
pub proof fn law_workloads_by_name(name: Seq<char>)
    ensures
        WorkloadShape::ShortShort.label() == "short_prompt_short_output"@,
        WorkloadShape::ShortLong.label() == "short_prompt_long_output"@,
        WorkloadShape::LongShort.label() == "long_prompt_short_output"@,
        WorkloadShape::LongLong.label() == "long_prompt_long_output"@,
        WorkloadShape::named(name) matches Some(s) ==> s.label() == name,
        WorkloadShape::named(name) is None ==> name != "short_prompt_short_output"@ && name
            != "short_prompt_long_output"@ && name != "long_prompt_short_output"@ && name
            != "long_prompt_long_output"@,
        WorkloadShape::every().len() == 4,
        WorkloadShape::every()[0] is ShortShort && WorkloadShape::every()[1] is ShortLong,
        WorkloadShape::every()[2] is LongShort && WorkloadShape::every()[3] is LongLong,
{
}

// ----- texts ----------------------------------------------------------------------

proof fn lemma_trimmed_start(s: Seq<char>) -> (n: int)
    ensures
        0 <= n <= s.len(),
        trimmed_start(s) == s.skip(n),
        forall|i: int| 0 <= i < n ==> white_space(#[trigger] s[i]),
        n < s.len() ==> !white_space(s[n]),
    decreases s.len(),
{
    if s.len() > 0 && white_space(s[0]) {
        let m = lemma_trimmed_start(s.drop_first());
        assert(s.drop_first().skip(m) =~= s.skip(m + 1));
        assert forall|i: int| 0 <= i < m + 1 implies white_space(#[trigger] s[i]) by {
            if i > 0 {
                assert(s[i] == s.drop_first()[i - 1]);
            }
        }
        m + 1
    } else {
        assert(s.skip(0) =~= s);
        0
    }
}

proof fn lemma_trimmed_end(s: Seq<char>) -> (n: int)
    ensures
        0 <= n <= s.len(),
        trimmed_end(s) == s.take(n),
        forall|i: int| n <= i < s.len() ==> white_space(#[trigger] s[i]),
        n > 0 ==> !white_space(s[n - 1]),
    decreases s.len(),
{
    if s.len() > 0 && white_space(s.last()) {
        let m = lemma_trimmed_end(s.drop_last());
        assert(s.drop_last().take(m) =~= s.take(m));
        assert forall|i: int| m <= i < s.len() implies white_space(#[trigger] s[i]) by {
            if i < s.len() - 1 {
                assert(s[i] == s.drop_last()[i]);
            }
        }
        m
    } else {
        assert(s.take(s.len() as int) =~= s);
        s.len() as int
    }
}

/// A trimmed text is the part between the white space at its ends: it neither begins
/// nor ends with any, and what was cut off is nothing else.
pub proof fn law_trimming_cuts_white_space_alone(s: Seq<char>) -> (cut: (int, int))
    ensures
        0 <= cut.0 <= cut.1 <= s.len(),
        trimmed(s) == s.subrange(cut.0, cut.1),
        forall|i: int| 0 <= i < cut.0 ==> white_space(#[trigger] s[i]),
        forall|i: int| cut.1 <= i < s.len() ==> white_space(#[trigger] s[i]),
        trimmed(s).len() > 0 ==> !white_space(trimmed(s)[0]) && !white_space(trimmed(s).last()),
{
    let a = lemma_trimmed_start(s);
    let t = s.skip(a);
    let b = lemma_trimmed_end(t);
    assert(t.take(b) =~= s.subrange(a, a + b));
    assert forall|i: int| a + b <= i < s.len() implies white_space(#[trigger] s[i]) by {
        assert(s[i] == t[i - a]);
    }
    if b > 0 {
        assert(trimmed(s)[0] == s[a]);
        assert(trimmed(s).last() == t[b - 1]);
    }
    (a, a + b)
}

/// What stands before the first occurrence of a word, the word, and what stands
/// behind it make up the text; where the word does not occur, all of it stands
/// before.
pub proof fn law_a_word_parts_a_text(s: Seq<char>, word: Seq<char>, at: int)
    ensures
        occurs_at(s, word, at) && (forall|k: int| 0 <= k < at ==> !occurs_at(s, word, k)) ==> until(
            s,
            word,
        ) == s.take(at) && beyond(s, word) == Some(s.skip(at + word.len())) && s == s.take(at)
            + word + s.skip(at + word.len()),
        !occurs(s, word) ==> until(s, word) == s && beyond(s, word) is None,
{
    if occurs_at(s, word, at) && (forall|k: int| 0 <= k < at ==> !occurs_at(s, word, k)) {
        assert(first_at(s, word, at));
        let c = choose|c: int| first_at(s, word, c);
        assert(first_at(s, word, c));
        assert(c == at) by {
            if c < at {
                assert(!occurs_at(s, word, c));
            }
            if at < c {
                assert(!occurs_at(s, word, at));
            }
        }
        assert(place(s, word) == Some(at));
        assert(s =~= s.take(at) + word + s.skip(at + word.len())) by {
            assert(s.subrange(at, at + word.len()) == word);
            assert forall|i: int| 0 <= i < s.len() implies s[i] == (s.take(at) + word + s.skip(
                at + word.len(),
            ))[i] by {
                if at <= i < at + word.len() {
                    assert(word[i - at] == s.subrange(at, at + word.len())[i - at]);
                }
            }
        }
    }
}

/// A line is the end of a stream, the payload of an event, or neither, by what
/// stands in front.
pub proof fn law_lines_of_a_stream(payload: Seq<char>, line: Seq<char>, f: Frame)
    ensures
        is_frame("data: "@ + "[DONE]"@, f) ==> f is Done,
        is_frame("data: "@ + payload, f) && payload != "[DONE]"@ ==> (f matches Frame::Data(p)
            && p@ == payload),
        is_frame(line, f) && !"data: "@.is_prefix_of(line) ==> f is Other,
{
    let prefix = "data: "@;
    assert((prefix + payload).skip(prefix.len() as int) =~= payload);
    assert((prefix + "[DONE]"@).skip(prefix.len() as int) =~= "[DONE]"@);
    assert(prefix.is_prefix_of(prefix + payload)) by {
        assert((prefix + payload).subrange(0, prefix.len() as int) =~= prefix);
    }
    assert(prefix.is_prefix_of(prefix + "[DONE]"@)) by {
        assert((prefix + "[DONE]"@).subrange(0, prefix.len() as int) =~= prefix);
    }
}

proof fn lemma_without_commas(s: Seq<char>) -> (n: int)
    ensures
        0 <= n <= s.len(),
        without_commas(s) == s.take(n),
        forall|i: int| n <= i < s.len() ==> #[trigger] s[i] == ',',
        n > 0 ==> s[n - 1] != ',',
    decreases s.len(),
{
    if s.len() > 0 && s.last() == ',' {
        let m = lemma_without_commas(s.drop_last());
        assert(s.drop_last().take(m) =~= s.take(m));
        assert forall|i: int| m <= i < s.len() implies #[trigger] s[i] == ',' by {
            if i < s.len() - 1 {
                assert(s[i] == s.drop_last()[i]);
            }
        }
        m
    } else {
        assert(s.take(s.len() as int) =~= s);
        s.len() as int
    }
}

/// Only commas at the end of a text are dropped, and all of them.
pub proof fn law_only_commas_at_the_end_are_dropped(s: Seq<char>) -> (n: int)
    ensures
        0 <= n <= s.len(),
        without_commas(s) == s.take(n),
        forall|i: int| n <= i < s.len() ==> #[trigger] s[i] == ',',
        without_commas(s).len() > 0 ==> without_commas(s).last() != ',',
{
    let n = lemma_without_commas(s);
    if n > 0 {
        assert(s.take(n).last() == s[n - 1]);
    }
    n
}

/// The release stated on a line is what stands behind the word, trimmed and without
/// commas at its end.
pub proof fn law_releases_are_read_behind_the_word(text: Seq<char>, rest: Seq<char>)
    requires
        !occurs(text, "\n"@),
        beyond(text, "release"@) == Some(rest),
        !occurs(rest, "release"@),
    ensures
        release(text) == Some(without_commas(trimmed(rest))),
        line_with(text, "release"@) == Some(text),
{
    assert(until(text, "\n"@) == text);
    assert(occurs(text, "release"@));
    assert(until(rest, "release"@) == rest);
}

/// A tool's answer names a device on its first line, if that says anything.
pub proof fn law_the_first_line_is_named(answer: Seq<char>)
    requires
        !occurs(trimmed(answer), "\n"@),
    ensures
        trimmed(trimmed(answer)).len() > 0 ==> first_line(answer) == Some(trimmed(trimmed(answer))),
        trimmed(trimmed(answer)).len() == 0 ==> first_line(answer) is None,
{
}

/// A summary is that of its values where there are any, and there is none where
/// there are not; without successes all latencies are zero.
pub proof fn law_no_values_no_summary(p: Percentiles, values: Seq<u64>)
    ensures
        summary(None, values) <==> values.len() == 0,
        summary(Some(p), values) <==> p.is_summary_of(values),
        p.is_summary_of(values) ==> values.len() > 0,
        no_latency().count == 0 && no_latency().sum == 0 && no_latency().max == 0,
        no_latency().p50 == 0 && no_latency().p99 == 0 && no_latency().min == 0,
{
    if p.is_summary_of(values) {
        let sorted = choose|sorted: Seq<u64>| #[trigger] p.summarises(values, sorted);
        broadcast use vstd::seq_lib::group_to_multiset_ensures;

        assert(sorted.to_multiset().len() == sorted.len());
        assert(values.to_multiset().len() == values.len());
    }
}

} // verus!
