//! A completed model call.

use vstd::prelude::*;

use crate::rate;

verus! {

/// The shortest time that a generation is taken to last.
pub const MIN_DUR_MS: i64 = 50;

/// A completed model call, as the usage database records it.
#[derive(Debug)]
pub struct Call {
    /// Key of the row.
    pub id: String,
    /// When the request was sent.
    pub started_ms: i64,
    /// When the first token came, if that was recorded.
    pub first_token_ms: Option<i64>,
    /// When the call was complete.
    pub completed_ms: i64,
    /// How long tokens were generated.
    pub gen_ms: i64,
    /// Tokens of the answer.
    pub output: u64,
    /// Tokens of reasoning.
    pub reasoning: u64,
    /// Tokens of the prompt.
    pub input: u64,
    /// Tokens written to the prompt cache.
    pub cache_creation: u64,
    /// Tokens read from the prompt cache.
    pub cache_read: u64,
    /// The session that made the call.
    pub session: String,
}

/// What a call records, with texts as their characters.
pub struct CallView {
    pub id: Seq<char>,
    pub started_ms: i64,
    pub first_token_ms: Option<i64>,
    pub completed_ms: i64,
    pub gen_ms: i64,
    pub output: u64,
    pub reasoning: u64,
    pub input: u64,
    pub cache_creation: u64,
    pub cache_read: u64,
    pub session: Seq<char>,
}

impl View for Call {
    type V = CallView;

    open spec fn view(&self) -> CallView {
        CallView {
            id: self.id@,
            started_ms: self.started_ms,
            first_token_ms: self.first_token_ms,
            completed_ms: self.completed_ms,
            gen_ms: self.gen_ms,
            output: self.output,
            reasoning: self.reasoning,
            input: self.input,
            cache_creation: self.cache_creation,
            cache_read: self.cache_read,
            session: self.session@,
        }
    }
}

impl CallView {
    /// Streamed tokens: those of the answer and those of reasoning.
    pub open spec fn eff(self) -> u64 {
        rate::clip(self.output + self.reasoning)
    }

    /// How long tokens were generated, at least the shortest time.
    pub open spec fn gen(self) -> u64 {
        if self.gen_ms >= MIN_DUR_MS {
            self.gen_ms as u64
        } else {
            MIN_DUR_MS as u64
        }
    }
}

impl Clone for Call {
    fn clone(&self) -> (r: Self)
        ensures
            r@ == self@,
    {
        Call {
            id: self.id.clone(),
            started_ms: self.started_ms,
            first_token_ms: self.first_token_ms,
            completed_ms: self.completed_ms,
            gen_ms: self.gen_ms,
            output: self.output,
            reasoning: self.reasoning,
            input: self.input,
            cache_creation: self.cache_creation,
            cache_read: self.cache_read,
            session: self.session.clone(),
        }
    }
}

impl Call {
    /// Streamed tokens of the call: those of the answer and those of reasoning.
    pub fn effective_out(&self) -> (r: u64)
        ensures
            r == self@.eff(),
    {
        self.output.saturating_add(self.reasoning)
    }

    /// How long the call generated, at least the shortest time.
    pub fn generation(&self) -> (r: u64)
        ensures
            r == self@.gen(),
            r >= MIN_DUR_MS,
    {
        if self.gen_ms >= MIN_DUR_MS {
            self.gen_ms as u64
        } else {
            MIN_DUR_MS as u64
        }
    }
}

/// How long a call generated: from its first token to its end where that is recorded,
/// else its recorded duration, and never less than the shortest time.
pub open spec fn generation_time(ft: Option<i64>, completed: i64, dur: Option<i64>) -> i64 {
    let raw: int = match ft {
        Some(f) if completed > f => completed - f,
        _ => match dur {
            Some(d) if d > 0 => d as int,
            _ => MIN_DUR_MS as int,
        },
    };
    rate::clip_signed(if raw >= MIN_DUR_MS {
        raw
    } else {
        MIN_DUR_MS as int
    })
}

/// How long a call generated.
pub fn gen_ms_from(ft: Option<i64>, completed: i64, dur: Option<i64>) -> (r: i64)
    ensures
        r == generation_time(ft, completed, dur),
        r >= MIN_DUR_MS,
{
    let raw: i128 = match ft {
        Some(f) if completed > f => completed as i128 - f as i128,
        _ => match dur {
            Some(d) if d > 0 => d as i128,
            _ => MIN_DUR_MS as i128,
        },
    };
    rate::clipped_signed(
        if raw >= MIN_DUR_MS as i128 {
            raw
        } else {
            MIN_DUR_MS as i128
        },
    )
}

/// A call generated from its first token to its end where that is recorded, else for as long as it
/// took, and for fifty milliseconds at least.
pub proof fn law_generation_runs_from_the_first_token(
    ft: Option<i64>,
    completed: i64,
    dur: Option<i64>,
)
    requires
        ft matches Some(f) ==> completed - f <= i64::MAX,
    ensures
        ({
            let g = generation_time(ft, completed, dur);
            &&& g >= 50
            &&& ft matches Some(f) ==> (completed - f >= 50 ==> g == completed - f) && (0
                < completed - f < 50 ==> g == 50)
            &&& (ft is None || completed <= ft->0) ==> (match dur {
                Some(d) if d >= 50 => g == d,
                _ => g == 50,
            })
        }),
{
}

} // verus!
