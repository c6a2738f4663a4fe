//! Decisions of the job worker: the episode status shown while a job runs,
//! the stage that follows a finished job, and what a failed job turns into.
use vstd::prelude::*;
use crate::text::{ascii_lowercase, contains, str_contains, str_eq, to_ascii_lowercase};

verus! {

/// Episode status while a job of type `t` runs; `None` for image jobs,
/// which leave the status as it is.
pub open spec fn stage_status_spec(t: Seq<char>) -> Option<Seq<char>> {
    if t == "image"@ {
        None
    } else if t == "scrape"@ || t == "pdf"@ {
        Some("scraping"@)
    } else if t == "clean"@ {
        Some("cleaning"@)
    } else if t == "summarize"@ {
        Some("summarizing"@)
    } else if t == "tts"@ {
        Some("tts"@)
    } else {
        Some("error"@)
    }
}

/// The episode status to set when a job of this type starts.
pub fn stage_status(job_type: &str) -> (r: Option<&'static str>)
    ensures
        match r {
            Some(s) => stage_status_spec(job_type@) == Some(s@),
            None => stage_status_spec(job_type@) is None,
        },
{
    if str_eq(job_type, "image") {
        None
    } else if str_eq(job_type, "scrape") || str_eq(job_type, "pdf") {
        Some("scraping")
    } else if str_eq(job_type, "clean") {
        Some("cleaning")
    } else if str_eq(job_type, "summarize") {
        Some("summarizing")
    } else if str_eq(job_type, "tts") {
        Some("tts")
    } else {
        Some("error")
    }
}

/// What finishing a job does besides marking it done: the job queued
/// next, the new episode status, and whether the publication date is set.
pub struct Transition {
    pub next_job: Option<&'static str>,
    pub episode_status: Option<&'static str>,
    pub set_pub_date: bool,
}

/// Views of a transition.
pub open spec fn transition_view(t: Transition) -> (Option<Seq<char>>, Option<Seq<char>>, bool) {
    (
        match t.next_job {
            Some(j) => Some(j@),
            None => None,
        },
        match t.episode_status {
            Some(s) => Some(s@),
            None => None,
        },
        t.set_pub_date,
    )
}

/// The stage transitions: scrape or pdf, then clean, then summarize when
/// the episode asks for it, then tts; after tts the episode is done, dated,
/// and gets an image job when images are generated.
pub open spec fn completion_spec(t: Seq<char>, summarize: i32, generate_images: bool) -> (
    Option<Seq<char>>,
    Option<Seq<char>>,
    bool,
) {
    if t == "scrape"@ || t == "pdf"@ {
        (Some("clean"@), Some("cleaning"@), false)
    } else if t == "clean"@ {
        if summarize != 0 {
            (Some("summarize"@), Some("summarizing"@), false)
        } else {
            (Some("tts"@), Some("tts"@), false)
        }
    } else if t == "summarize"@ {
        (Some("tts"@), Some("tts"@), false)
    } else if t == "tts"@ {
        (
            if generate_images {
                Some("image"@)
            } else {
                None
            },
            Some("done"@),
            true,
        )
    } else {
        (None, None, false)
    }
}

/// The transition after a job of type `job_type` succeeds. `summarize` is
/// the episode's flag (0 when it could not be read).
pub fn complete_transition(job_type: &str, summarize: i32, generate_images: bool) -> (r: Transition)
    ensures
        transition_view(r) == completion_spec(job_type@, summarize, generate_images),
{
    if str_eq(job_type, "scrape") || str_eq(job_type, "pdf") {
        Transition { next_job: Some("clean"), episode_status: Some("cleaning"), set_pub_date: false }
    } else if str_eq(job_type, "clean") {
        if summarize != 0 {
            Transition {
                next_job: Some("summarize"),
                episode_status: Some("summarizing"),
                set_pub_date: false,
            }
        } else {
            Transition { next_job: Some("tts"), episode_status: Some("tts"), set_pub_date: false }
        }
    } else if str_eq(job_type, "summarize") {
        Transition { next_job: Some("tts"), episode_status: Some("tts"), set_pub_date: false }
    } else if str_eq(job_type, "tts") {
        Transition {
            next_job: if generate_images {
                Some("image")
            } else {
                None
            },
            episode_status: Some("done"),
            set_pub_date: true,
        }
    } else {
        Transition { next_job: None, episode_status: None, set_pub_date: false }
    }
}

/// An error message that reports an upstream outage (503, service
/// unavailable, overloaded), compared in ASCII lowercase.
pub open spec fn outage(msg: Seq<char>) -> bool {
    let s = ascii_lowercase(msg);
    ||| contains(s, "503"@)
    ||| contains(s, "service unavailable"@)
    ||| contains(s, "overloaded"@)
    ||| contains(s, "unavailable"@)
}

/// Detects upstream model provider outages, which are waited out rather
/// than counted as attempts.
pub fn is_upstream_outage(error_msg: &str) -> (b: bool)
    ensures
        b == outage(error_msg@),
{
    let s = to_ascii_lowercase(error_msg);
    str_contains(s.as_str(), "503") || str_contains(s.as_str(), "service unavailable")
        || str_contains(s.as_str(), "overloaded") || str_contains(s.as_str(), "unavailable")
}

/// Seconds a deferred job waits out an upstream outage.
pub const OUTAGE_DEFER_SECS: i64 = 1800;

/// What a failed job turns into.
#[derive(Clone, Copy, Debug, PartialEq, Eq, Structural)]
pub enum FailAction {
    /// Queue again after `secs` seconds without counting an attempt.
    Defer { secs: i64 },
    /// Queue again with `attempts` recorded, after `backoff_secs` seconds.
    Retry { attempts: i32, backoff_secs: i32 },
    /// Give up: the job is in error with `attempts` recorded; the episode
    /// is marked in error when `episode_error`.
    GiveUp { attempts: i32, episode_error: bool },
}

/// `2^n`.
pub open spec fn pow2(n: nat) -> int
    decreases n,
{
    if n == 0 {
        1
    } else {
        2 * pow2((n - 1) as nat)
    }
}

/// Backoff before retry number `n`: 60 s times `2^n`.
pub open spec fn backoff_spec(n: int) -> int {
    60 * pow2(n as nat)
}

/// The backoff of a retry, `60 * (1 << n)`.
pub fn retry_backoff(n: i32) -> (r: i32)
    requires
        0 <= n <= 25,
    ensures
        r == backoff_spec(n as int),
{
    let mut p: i32 = 1;
    let mut i: i32 = 0;
    while i < n
        invariant
            0 <= i <= n <= 25,
            p == pow2(i as nat),
            1 <= p <= 33554432,
        decreases n - i,
    {
        proof {
            lemma_pow2_mono(i as nat + 1, 25);
            lemma_pow2_25();
            assert(pow2(i as nat + 1) == 2 * pow2(i as nat));
        }
        p = p * 2;
        i += 1;
    }
    assert(60 * p <= 60 * 33554432) by (nonlinear_arith)
        requires
            0 <= p <= 33554432,
    ;
    60 * p
}

proof fn lemma_pow2_mono(a: nat, b: nat)
    requires
        a <= b,
    ensures
        1 <= pow2(a) <= pow2(b),
    decreases b,
{
    if a < b {
        lemma_pow2_mono(a, (b - 1) as nat);
    } else if a > 0 {
        lemma_pow2_mono((a - 1) as nat, (a - 1) as nat);
    }
}

proof fn lemma_pow2_25()
    ensures
        pow2(25) == 33554432,
{
    reveal_with_fuel(pow2, 26);
}

/// The action for a failed job: an outage defers it; otherwise the attempt
/// counts, and the job is retried with exponential backoff while attempts
/// remain, else it is given up (image jobs leave the episode alone).
pub open spec fn fail_spec(attempts: i32, msg: Seq<char>, max_attempts: i32, is_image: bool) -> FailAction {
    if outage(msg) {
        FailAction::Defer { secs: OUTAGE_DEFER_SECS }
    } else if attempts + 1 < max_attempts {
        FailAction::Retry {
            attempts: (attempts + 1) as i32,
            backoff_secs: backoff_spec(attempts + 1) as i32,
        }
    } else {
        FailAction::GiveUp { attempts: (attempts + 1) as i32, episode_error: !is_image }
    }
}

/// Decides what happens to a job that failed with `error_msg`.
pub fn fail_action(attempts: i32, error_msg: &str, max_attempts: i32, is_image: bool) -> (r: FailAction)
    requires
        attempts < i32::MAX,
        !outage(error_msg@) && attempts + 1 < max_attempts ==> 0 <= attempts + 1 <= 25,
    ensures
        r == fail_spec(attempts, error_msg@, max_attempts, is_image),
{
    if is_upstream_outage(error_msg) {
        return FailAction::Defer { secs: OUTAGE_DEFER_SECS };
    }
    let new_attempts = attempts + 1;
    if new_attempts < max_attempts {
        FailAction::Retry { attempts: new_attempts, backoff_secs: retry_backoff(new_attempts) }
    } else {
        FailAction::GiveUp { attempts: new_attempts, episode_error: !is_image }
    }
}

/// Position of a job type in the pipeline (scrape or pdf, clean,
/// summarize, tts, image).
pub open spec fn stage_rank(t: Seq<char>) -> int {
    if t == "scrape"@ || t == "pdf"@ {
        0
    } else if t == "clean"@ {
        1
    } else if t == "summarize"@ {
        2
    } else if t == "tts"@ {
        3
    } else {
        4
    }
}

/// Finishing a job only ever queues a later stage, so an episode moves
/// forward and its pipeline ends.
pub proof fn lemma_transitions_move_forward(t: Seq<char>, summarize: i32, generate_images: bool)
    ensures
        completion_spec(t, summarize, generate_images).0 matches Some(next) ==> stage_rank(next) > stage_rank(t),
{
    reveal_strlit("scrape");
    reveal_strlit("pdf");
    reveal_strlit("clean");
    reveal_strlit("summarize");
    reveal_strlit("tts");
    reveal_strlit("image");
    assert("tts"@[0] != "pdf"@[0]);
    assert("image"@[0] != "clean"@[0]);
    assert("summarize"@.len() != "scrape"@.len());
    assert(stage_rank("clean"@) == 1);
    assert(stage_rank("summarize"@) == 2);
    assert(stage_rank("tts"@) == 3);
    assert(stage_rank("image"@) == 4);
}

/// Each retry waits twice as long as the one before.
pub proof fn lemma_backoff_doubles(n: int)
    requires
        n >= 0,
    ensures
        backoff_spec(n + 1) == 2 * backoff_spec(n),
{
    assert(pow2((n + 1) as nat) == 2 * pow2(n as nat));
}

/// A failure counts as an attempt unless it is an outage; the job is
/// retried only while the attempts stay under the limit, and given up
/// once they reach it.
pub proof fn lemma_fail_respects_limit(attempts: i32, msg: Seq<char>, max_attempts: i32, is_image: bool)
    requires
        attempts < i32::MAX,
    ensures
        fail_spec(attempts, msg, max_attempts, is_image) matches FailAction::Retry { attempts: a, .. }
            ==> a == attempts + 1 && a < max_attempts,
        fail_spec(attempts, msg, max_attempts, is_image) matches FailAction::GiveUp { attempts: a, .. }
            ==> a == attempts + 1 && a >= max_attempts,
        fail_spec(attempts, msg, max_attempts, is_image) is Defer <==> outage(msg),
{
}

} // verus!
