//! Context budgeting for local text generation: how much of a prompt fits
//! beside the tokens reserved for the answer.
use vstd::prelude::*;
use vstd::string::*;
use crate::text::{decimal, decimal_string};

verus! {

/// Prompt tokens that fit in a context of `n_ctx` tokens when `max_tokens`
/// are reserved for the answer (at least one).
pub open spec fn budget_of(n_ctx: int, max_tokens: int) -> int {
    if n_ctx - max_tokens > 1 {
        n_ctx - max_tokens
    } else {
        1
    }
}

/// The number of prompt tokens the context can take.
pub fn prompt_budget(n_ctx: u32, max_tokens: usize) -> (b: usize)
    ensures
        b == budget_of(n_ctx as int, max_tokens as int),
{
    let n = n_ctx as usize;
    let room = if n > max_tokens {
        n - max_tokens
    } else {
        0
    };
    if room > 1 {
        room
    } else {
        1
    }
}

/// Index of the first prompt token kept: a prompt longer than the budget
/// loses its beginning.
pub fn prompt_start(n_tokens: usize, budget: usize) -> (start: usize)
    ensures
        n_tokens > budget ==> start == n_tokens - budget,
        n_tokens <= budget ==> start == 0,
{
    if n_tokens > budget {
        n_tokens - budget
    } else {
        0
    }
}

/// The warning printed when a prompt is cut.
pub open spec fn truncation_text(n_tokens: nat, budget: nat) -> Seq<char> {
    "[docq] warning: prompt is "@ + decimal(n_tokens) + " tokens but context budget is "@
        + decimal(budget) + "; truncating from the beginning"@
}

/// The warning for a prompt of `n_tokens` under `budget`, when it is cut.
pub fn truncation_warning(n_tokens: usize, budget: usize) -> (w: Option<String>)
    ensures
        n_tokens > budget ==> w is Some && w->0@ == truncation_text(n_tokens as nat, budget as nat),
        n_tokens <= budget ==> w is None,
{
    if n_tokens > budget {
        let mut m = String::from_str("[docq] warning: prompt is ");
        m.append(decimal_string(n_tokens as u128).as_str());
        m.append(" tokens but context budget is ");
        m.append(decimal_string(budget as u128).as_str());
        m.append("; truncating from the beginning");
        Some(m)
    } else {
        None
    }
}

/// The kept prompt always fits the budget and is never empty when the
/// prompt is not.
pub proof fn lemma_kept_prompt_fits(n_tokens: int, n_ctx: int, max_tokens: int)
    requires
        n_tokens >= 0,
    ensures
        ({
            let b = budget_of(n_ctx, max_tokens);
            let start = if n_tokens > b {
                n_tokens - b
            } else {
                0
            };
            &&& n_tokens - start <= b
            &&& n_tokens > 0 ==> n_tokens - start >= 1
        }),
{
}

} // verus!
