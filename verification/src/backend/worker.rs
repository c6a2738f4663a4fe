//! Decisions of the job worker of the first server: scrape, then clean,
//! then tts.
use vstd::prelude::*;
use crate::server::worker::{backoff_spec, retry_backoff, transition_view, FailAction, Transition};
use crate::text::str_eq;

verus! {

/// Episode status while a job of type `t` runs.
pub open spec fn stage_status_spec(t: Seq<char>) -> Seq<char> {
    if t == "scrape"@ {
        "scraping"@
    } else if t == "clean"@ {
        "cleaning"@
    } else if t == "tts"@ {
        "tts"@
    } else {
        "error"@
    }
}

/// The episode status to set when a job of this type starts.
pub fn stage_status(job_type: &str) -> (r: &'static str)
    ensures
        r@ == stage_status_spec(job_type@),
{
    if str_eq(job_type, "scrape") {
        "scraping"
    } else if str_eq(job_type, "clean") {
        "cleaning"
    } else if str_eq(job_type, "tts") {
        "tts"
    } else {
        "error"
    }
}

/// The stage transitions: scrape, then clean, then tts; after tts the
/// episode is done and dated.
pub open spec fn completion_spec(t: Seq<char>) -> (Option<Seq<char>>, Option<Seq<char>>, bool) {
    if t == "scrape"@ {
        (Some("clean"@), Some("cleaning"@), false)
    } else if t == "clean"@ {
        (Some("tts"@), Some("tts"@), false)
    } else if t == "tts"@ {
        (None, Some("done"@), true)
    } else {
        (None, None, false)
    }
}

/// The transition after a job of type `job_type` succeeds.
pub fn complete_transition(job_type: &str) -> (r: Transition)
    ensures
        transition_view(r) == completion_spec(job_type@),
{
    if str_eq(job_type, "scrape") {
        Transition { next_job: Some("clean"), episode_status: Some("cleaning"), set_pub_date: false }
    } else if str_eq(job_type, "clean") {
        Transition { next_job: Some("tts"), episode_status: Some("tts"), set_pub_date: false }
    } else if str_eq(job_type, "tts") {
        Transition { next_job: None, episode_status: Some("done"), set_pub_date: true }
    } else {
        Transition { next_job: None, episode_status: None, set_pub_date: false }
    }
}

/// The action for a failed job: retried with exponential backoff while
/// attempts remain, else given up with the episode in error.
pub open spec fn fail_spec(attempts: i32, max_attempts: i32) -> FailAction {
    if attempts + 1 < max_attempts {
        FailAction::Retry {
            attempts: (attempts + 1) as i32,
            backoff_secs: backoff_spec(attempts + 1) as i32,
        }
    } else {
        FailAction::GiveUp { attempts: (attempts + 1) as i32, episode_error: true }
    }
}

/// Decides what happens to a failed job.
pub fn fail_action(attempts: i32, max_attempts: i32) -> (r: FailAction)
    requires
        attempts < i32::MAX,
        attempts + 1 < max_attempts ==> 0 <= attempts + 1 <= 25,
    ensures
        r == fail_spec(attempts, max_attempts),
{
    let new_attempts = attempts + 1;
    if new_attempts < max_attempts {
        FailAction::Retry { attempts: new_attempts, backoff_secs: retry_backoff(new_attempts) }
    } else {
        FailAction::GiveUp { attempts: new_attempts, episode_error: true }
    }
}

} // verus!
