//! What a turn cost, as DeepSeek reports it.
//!
//! The API has three shapes for the same accounting and this module normalises them into one:
//!
//! 1. `prompt_tokens` + `prompt_cache_hit_tokens` + `prompt_cache_miss_tokens`;
//! 2. `prompt_tokens` + `prompt_tokens_details.cached_tokens` (the miss has to be derived);
//! 3. `total_tokens` only (the output has to be derived).
//!
//! Two invariants matter more than the shapes:
//!
//! - **`reasoning_tokens` is never added to `output_tokens`.** It is reported inside
//!   `completion_tokens` already; adding it again would bill the same tokens twice.
//! - **A number that cannot be read is read as "missed the cache"**, never as "hit it".

use vstd::prelude::*;

use crate::json::{count_at, Json, JsonView};

verus! {

/// One turn's tokens, normalised.
#[derive(Debug, Clone, Copy, PartialEq, Eq, Structural)]
pub struct Usage {
    /// Everything sent, cached or not. `hit + miss` when the API splits it, `prompt_tokens`
    /// otherwise.
    pub input_tokens: u64,
    /// Input tokens served from the prefix cache.
    pub prompt_cache_hit_tokens: u64,
    /// Input tokens the model had to process.
    pub prompt_cache_miss_tokens: u64,
    /// Everything generated, reasoning included.
    pub output_tokens: u64,
    /// The part of `output_tokens` that was reasoning. It is already inside `output_tokens` and
    /// must not be added to it.
    pub reasoning_tokens: u64,
}

impl Default for Usage {
    fn default() -> (out: Self)
        ensures
            out.input_tokens == 0,
            out.prompt_cache_hit_tokens == 0,
            out.prompt_cache_miss_tokens == 0,
            out.output_tokens == 0,
            out.reasoning_tokens == 0,
    {
        Usage {
            input_tokens: 0,
            prompt_cache_hit_tokens: 0,
            prompt_cache_miss_tokens: 0,
            output_tokens: 0,
            reasoning_tokens: 0,
        }
    }
}

/// The numbers of a report that can be read.
#[derive(Debug, Clone, Copy, PartialEq, Eq)]
pub struct Report {
    pub prompt: Option<u64>,
    pub hit: Option<u64>,
    pub miss: Option<u64>,
    pub cached: Option<u64>,
    pub completion: Option<u64>,
    pub total: Option<u64>,
    pub reasoning: Option<u64>,
}

/// A number under a key inside an object under another.
pub open spec fn nested_count(node: JsonView, outer: Seq<char>, inner: Seq<char>) -> Option<u64> {
    match node.get_in(outer, inner) {
        Some(leaf) => leaf.count(),
        None => None,
    }
}

/// What a report says, number by number.
pub open spec fn report_of(value: JsonView) -> Report {
    Report {
        prompt: count_at(value, "prompt_tokens"@),
        hit: count_at(value, "prompt_cache_hit_tokens"@),
        miss: count_at(value, "prompt_cache_miss_tokens"@),
        cached: nested_count(value, "prompt_tokens_details"@, "cached_tokens"@),
        completion: count_at(value, "completion_tokens"@),
        total: count_at(value, "total_tokens"@),
        reasoning: nested_count(value, "completion_tokens_details"@, "reasoning_tokens"@),
    }
}

/// A number, or zero where there is none.
pub open spec fn or_zero(n: Option<u64>) -> u64 {
    match n {
        Some(n) => n,
        None => 0,
    }
}

/// What is left of `a` once `b` is taken away; nothing when there was not enough.
pub open spec fn less(a: u64, b: u64) -> u64 {
    if a >= b {
        (a - b) as u64
    } else {
        0
    }
}

pub open spec fn smaller(a: u64, b: u64) -> u64 {
    if a <= b {
        a
    } else {
        b
    }
}

impl Report {
    /// Everything sent: both halves where the split is reported, the prompt otherwise.
    pub open spec fn input(self) -> Option<u64> {
        match (self.hit, self.miss) {
            (Some(hit), Some(miss)) => Some(
                if hit + miss <= u64::MAX {
                    (hit + miss) as u64
                } else {
                    u64::MAX
                },
            ),
            _ => self.prompt,
        }
    }

    /// What was served from the cache, never more than was sent: as reported, else what did not
    /// miss, else the cached tokens. With nothing to split the number stands as written.
    pub open spec fn hits(self) -> u64 {
        match (self.input(), self.hit, self.miss, self.cached) {
            (Some(input), Some(hit), _, _) => smaller(hit, input),
            (Some(input), None, Some(miss), _) => less(input, miss),
            (Some(input), None, None, Some(cached)) => smaller(cached, input),
            (Some(_), None, None, None) => 0,
            (None, hit, _, _) => or_zero(hit),
        }
    }

    /// What the model had to process: all that the cache did not serve. With nothing to split the
    /// number stands as written.
    pub open spec fn misses(self) -> u64 {
        match self.input() {
            Some(input) => less(input, self.hits()),
            None => or_zero(self.miss),
        }
    }

    /// What was generated: the completion, else what the total leaves over.
    pub open spec fn output(self) -> u64 {
        match (self.completion, self.total) {
            (Some(completion), _) => completion,
            (None, Some(total)) => less(total, or_zero(self.input())),
            (None, None) => 0,
        }
    }

    pub open spec fn usage(self) -> Usage {
        Usage {
            input_tokens: or_zero(self.input()),
            prompt_cache_hit_tokens: self.hits(),
            prompt_cache_miss_tokens: self.misses(),
            output_tokens: self.output(),
            reasoning_tokens: or_zero(self.reasoning),
        }
    }
}

fn number_or_zero(n: Option<u64>) -> (out: u64)
    ensures
        out == or_zero(n),
{
    match n {
        Some(n) => n,
        None => 0,
    }
}

fn at_most(n: u64, most: u64) -> (out: u64)
    ensures
        out == smaller(n, most),
{
    if n <= most {
        n
    } else {
        most
    }
}

fn nested_number(value: &Json, outer: &str, inner: &str) -> (out: Option<u64>)
    ensures
        out == nested_count(value@, outer@, inner@),
{
    match value.get(outer) {
        Some(node) => node.count_under(inner),
        None => None,
    }
}

impl Usage {
    /// Read what a response (or a stream's final chunk) says.
    ///
    /// Missing fields are zero, and a shape that cannot be read falls back to the next one rather
    /// than to a guess that flatters the cache.
    pub fn from_json(value: &Json) -> (out: Usage)
        ensures
            out == report_of(value@).usage(),
    {
        let prompt = value.count_under("prompt_tokens");
        let hit = value.count_under("prompt_cache_hit_tokens");
        let miss = value.count_under("prompt_cache_miss_tokens");
        let cached = nested_number(value, "prompt_tokens_details", "cached_tokens");
        let completion = value.count_under("completion_tokens");
        let total = value.count_under("total_tokens");
        let reasoning = nested_number(value, "completion_tokens_details", "reasoning_tokens");

        let input: Option<u64> = match (hit, miss) {
            (Some(hit), Some(miss)) => Some(hit.saturating_add(miss)),
            _ => prompt,
        };

        // The split, from whichever number is present: the hit, else `input - miss`, else the
        // cached tokens, else "all of it missed". Whatever was reported, it adds back up.
        let (hits, misses): (u64, u64) = match input {
            Some(input) => {
                let hits: u64 = match (hit, miss, cached) {
                    (Some(hit), _, _) => at_most(hit, input),
                    (None, Some(miss), _) => input.saturating_sub(miss),
                    (None, None, Some(cached)) => at_most(cached, input),
                    (None, None, None) => 0,
                };
                (hits, input - hits)
            },
            // Nothing to split: the numbers stand as written.
            None => (number_or_zero(hit), number_or_zero(miss)),
        };

        let output: u64 = match (completion, total) {
            (Some(completion), _) => completion,
            (None, Some(total)) => total.saturating_sub(number_or_zero(input)),
            (None, None) => 0,
        };

        Usage {
            input_tokens: number_or_zero(input),
            prompt_cache_hit_tokens: hits,
            prompt_cache_miss_tokens: misses,
            output_tokens: output,
            reasoning_tokens: number_or_zero(reasoning),
        }
    }

    pub fn is_empty(&self) -> (out: bool)
        ensures
            out == (self.input_tokens == 0 && self.output_tokens == 0),
    {
        self.input_tokens == 0 && self.output_tokens == 0
    }
}

// ---------------------------------------------------------------------------------------------
// Laws

/// Reasoning is never billed twice: whatever a report says about reasoning changes the reasoning
/// count and nothing else, and a reported completion is the output as it stands.
pub proof fn law_reasoning_is_never_added(report: Report, reasoning: Option<u64>)
    ensures
        ({
            let other = Report { reasoning, ..report };
            other.usage() == (Usage { reasoning_tokens: or_zero(reasoning), ..report.usage() })
        }),
        report.completion is Some ==> report.usage().output_tokens == report.completion->0,
{
    let other = Report { reasoning, ..report };
    assert(other.input() == report.input());
    assert(other.hits() == report.hits());
}

/// A number that cannot be read is read as a miss: with nothing said about the cache, all of the
/// input missed it.
pub proof fn law_the_unread_missed_the_cache(report: Report)
    requires
        report.hit is None,
        report.miss is None,
        report.cached is None,
    ensures
        report.usage().prompt_cache_hit_tokens == 0,
        report.usage().prompt_cache_miss_tokens == report.usage().input_tokens,
{
}

/// The split adds back up to the input: whenever it is known what was sent, the hit is never larger,
/// and hit and miss together are all of it.
pub proof fn law_the_split_adds_up(report: Report)
    requires
        report.input() is Some,
    ensures
        report.usage().prompt_cache_hit_tokens <= report.usage().input_tokens,
        report.usage().prompt_cache_hit_tokens + report.usage().prompt_cache_miss_tokens
            == report.usage().input_tokens,
{
}

/// A split that is reported is taken as it is given: both halves stand, and the input is their sum.
pub proof fn law_a_reported_split_is_taken_as_it_is(report: Report)
    requires
        report.hit is Some,
        report.miss is Some,
        report.hit->0 + report.miss->0 <= u64::MAX,
    ensures
        report.usage().prompt_cache_hit_tokens == report.hit->0,
        report.usage().prompt_cache_miss_tokens == report.miss->0,
        report.usage().input_tokens == report.hit->0 + report.miss->0,
{
}

/// The number under a name, where a whole number that fits stands there.
pub open spec fn number_under(value: JsonView, name: Seq<char>, n: u64) -> bool {
    value.get(name) == Some(JsonView::Int(n as int))
}

/// Each number of a report is read under its own name, and what is no whole number is not read.
pub proof fn law_a_report_is_read_under_its_names(value: JsonView, n: u64)
    ensures
        report_of(value).prompt == Some(n) <==> number_under(value, "prompt_tokens"@, n),
        report_of(value).hit == Some(n) <==> number_under(value, "prompt_cache_hit_tokens"@, n),
        report_of(value).miss == Some(n) <==> number_under(value, "prompt_cache_miss_tokens"@, n),
        report_of(value).completion == Some(n) <==> number_under(value, "completion_tokens"@, n),
        report_of(value).total == Some(n) <==> number_under(value, "total_tokens"@, n),
        report_of(value).cached == Some(n) <==> match value.get("prompt_tokens_details"@) {
            Some(details) => number_under(details, "cached_tokens"@, n),
            None => false,
        },
        report_of(value).reasoning == Some(n) <==> match value.get("completion_tokens_details"@) {
            Some(details) => number_under(details, "reasoning_tokens"@, n),
            None => false,
        },
{
}

/// What was sent is what the two halves come to where both are reported, as far as that can be
/// counted, and otherwise the prompt.
pub proof fn law_the_input_is_what_was_sent(report: Report)
    ensures
        ({
            let usage = report.usage();
            match (report.hit, report.miss) {
                (Some(hit), Some(miss)) => {
                    &&& hit + miss <= u64::MAX ==> usage.input_tokens == hit + miss
                    &&& hit + miss > u64::MAX ==> usage.input_tokens == u64::MAX
                },
                _ => match report.prompt {
                    Some(prompt) => usage.input_tokens == prompt,
                    None => usage.input_tokens == 0,
                },
            }
        }),
{
}

/// What hit the cache is what is said to have, else what is not said to have missed it, else what is
/// said to be cached, and never more than was sent. Where it is not known what was sent, the numbers
/// stand as they came.
pub proof fn law_what_hit_the_cache(report: Report, prompt: u64)
    requires
        report.hit is None || report.miss is None,
    ensures
        ({
            let hits = report.usage().prompt_cache_hit_tokens;
            let misses = report.usage().prompt_cache_miss_tokens;
            &&& report.prompt == Some(prompt) ==> {
                &&& report.hit matches Some(hit) ==> hits == (if hit <= prompt {
                    hit
                } else {
                    prompt
                })
                &&& report.hit is None ==> (report.miss matches Some(miss) ==> hits == (if miss
                    <= prompt {
                    (prompt - miss) as u64
                } else {
                    0
                }))
                &&& report.hit is None && report.miss is None ==> (report.cached matches Some(
                    cached,
                ) ==> hits == (if cached <= prompt {
                    cached
                } else {
                    prompt
                }))
                &&& misses == prompt - hits
            }
            &&& report.prompt is None ==> {
                &&& report.hit matches Some(hit) ==> hits == hit
                &&& report.hit is None ==> hits == 0
                &&& report.miss matches Some(miss) ==> misses == miss
                &&& report.miss is None ==> misses == 0
            }
        }),
{
}

/// What was generated is the completion, else what the total leaves over of the input, else nothing.
pub proof fn law_what_was_generated(report: Report)
    ensures
        ({
            let usage = report.usage();
            &&& report.completion matches Some(completion) ==> usage.output_tokens == completion
            &&& report.completion is None ==> match report.total {
                Some(total) => usage.output_tokens == (if total >= usage.input_tokens {
                    total - usage.input_tokens
                } else {
                    0
                }),
                None => usage.output_tokens == 0,
            }
            &&& report.reasoning matches Some(reasoning) ==> usage.reasoning_tokens == reasoning
            &&& report.reasoning is None ==> usage.reasoning_tokens == 0
        }),
{
}

} // verus!
