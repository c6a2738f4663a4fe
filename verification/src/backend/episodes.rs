//! Episode submission and retry: request and response shapes and the
//! decisions of the episode endpoints.
use vstd::prelude::*;
use crate::error::AppError;
use crate::scrape::{first_id, id_after_exec, opt_str};
use crate::text::{chars_of, contains, owned, push_str, str_contains, str_eq};

verus! {

broadcast use vstd::seq_lib::group_seq_properties;

/// Request to turn a URL into an episode.
pub struct SubmitEpisodeRequest {
    pub url: String,
    pub tts_provider: Option<String>,
}

/// Answer to a submission.
pub struct SubmitEpisodeResponse {
    pub id: String,
    pub status: String,
    pub source_url: Option<String>,
    pub source_type: String,
}

/// An episode as answered by the API.
pub struct EpisodeResponse {
    pub id: String,
    pub title: String,
    pub source_url: Option<String>,
    pub source_type: String,
    pub status: String,
    pub audio_url: Option<String>,
    pub image_url: Option<String>,
    pub duration_secs: Option<i32>,
    pub word_count: Option<i32>,
    pub tts_chunks_done: i32,
    pub tts_chunks_total: i32,
    pub tts_provider: Option<String>,
    pub error_msg: Option<String>,
    pub pub_date: Option<String>,
    pub created_at: String,
}

/// Source type of a submitted URL: `"arxiv"` for arXiv abstract pages and
/// ar5iv, `"article"` otherwise.
pub open spec fn source_type_of(url: Seq<char>) -> Seq<char> {
    if contains(url, "arxiv.org/abs/"@) || contains(url, "ar5iv.org"@) {
        "arxiv"@
    } else {
        "article"@
    }
}

/// Detects the source type of a submitted URL.
pub fn detect_source_type(url: &str) -> (r: &'static str)
    ensures
        r@ == source_type_of(url@),
{
    if str_contains(url, "arxiv.org/abs/") || str_contains(url, "ar5iv.org") {
        "arxiv"
    } else {
        "article"
    }
}

/// URL prefixes of arXiv abstract pages.
pub open spec fn abs_patterns() -> Seq<Seq<char>> {
    seq!["arxiv.org/abs/"@, "ar5iv.org/abs/"@]
}

/// The arXiv identifier of an abstract-page URL: the characters after
/// `arxiv.org/abs/` (or `ar5iv.org/abs/`) up to `/` or `?`.
pub fn extract_arxiv_id(url: &str) -> (r: Option<String>)
    ensures
        opt_str(r) == first_id(url@, abs_patterns(), false),
{
    let v = chars_of(url);
    proof {
        reveal_with_fuel(first_id, 3);
        assert(abs_patterns().drop_first() =~= seq!["ar5iv.org/abs/"@]);
        assert(abs_patterns().drop_first().drop_first() =~= Seq::<Seq<char>>::empty());
    }
    if let Some(id) = id_after_exec(&v, "arxiv.org/abs/", false) {
        return Some(id);
    }
    id_after_exec(&v, "ar5iv.org/abs/", false)
}

/// The speech provider of a submission: `"google"` when asked for, the
/// feed's default when none is given; any other value is refused.
pub fn validate_tts_provider(provider: Option<&String>, default: String) -> (r: Result<String, AppError>)
    ensures
        match provider {
            Some(p) => if p@ == "google"@ {
                r matches Ok(v) && v@ == p@
            } else {
                r matches Err(AppError::BadRequest(m)) && m@ == "Invalid tts_provider: "@ + p@
            },
            None => r matches Ok(v) && v == default,
        },
{
    match provider {
        Some(p) => if str_eq(p.as_str(), "google") {
            Ok(p.clone())
        } else {
            let mut m = owned("Invalid tts_provider: ");
            push_str(&mut m, p.as_str());
            Err(AppError::BadRequest(m))
        },
        None => Ok(default),
    }
}

/// Initial title of a submitted episode: `arXiv:<id>` for arXiv sources with
/// an identifier, the URL otherwise.
pub fn submission_title(url: &str, source_type: &str) -> (r: String)
    ensures
        r@ == (if source_type@ == "arxiv"@ {
            match first_id(url@, abs_patterns(), false) {
                Some(id) => "arXiv:"@ + id,
                None => url@,
            }
        } else {
            url@
        }),
{
    if str_eq(source_type, "arxiv") {
        match extract_arxiv_id(url) {
            Some(id) => {
                let mut t = owned("arXiv:");
                push_str(&mut t, id.as_str());
                t
            },
            None => owned(url),
        }
    } else {
        owned(url)
    }
}

/// Status an episode returns to when the given failed stage is retried.
pub open spec fn retry_status(job_type: Seq<char>) -> Seq<char> {
    if job_type == "scrape"@ || job_type == "pdf"@ {
        "pending"@
    } else if job_type == "clean"@ {
        "scraping"@
    } else if job_type == "tts"@ {
        "cleaning"@
    } else {
        "pending"@
    }
}

/// Decision of the retry endpoint: only episodes in `error` may be retried;
/// the failed stage (`scrape` when none is recorded) is queued again and the
/// episode returns to the status before that stage.
pub fn plan_retry(status: &str, failed_job_type: Option<String>) -> (r: Result<(String, &'static str), AppError>)
    ensures
        status@ != "error"@ ==> (r matches Err(AppError::BadRequest(m)) && m@
            == "Can only retry episodes in error state"@),
        status@ == "error"@ ==> (r matches Ok((job, st)) && job@ == (match failed_job_type {
            Some(j) => j@,
            None => "scrape"@,
        }) && st@ == retry_status(job@)),
{
    if !str_eq(status, "error") {
        return Err(AppError::BadRequest(owned("Can only retry episodes in error state")));
    }
    let job = match failed_job_type {
        Some(j) => j,
        None => owned("scrape"),
    };
    let st = if str_eq(job.as_str(), "scrape") || str_eq(job.as_str(), "pdf") {
        "pending"
    } else if str_eq(job.as_str(), "clean") {
        "scraping"
    } else if str_eq(job.as_str(), "tts") {
        "cleaning"
    } else {
        "pending"
    };
    Ok((job, st))
}

/// Title of an uploaded PDF episode: the given one, or `"PDF Upload"`.
pub fn upload_title(title: Option<String>) -> (r: String)
    ensures
        r@ == (match title {
            Some(t) => t@,
            None => "PDF Upload"@,
        }),
{
    match title {
        Some(t) => t,
        None => owned("PDF Upload"),
    }
}

/// Where an uploaded PDF waits for the extraction stage.
pub fn upload_pdf_path(episode_id: &str) -> (r: String)
    ensures
        r@ == "/tmp/"@ + episode_id@ + ".pdf"@,
{
    let mut p = owned("/tmp/");
    push_str(&mut p, episode_id);
    push_str(&mut p, ".pdf");
    proof {
        assert(p@ =~= "/tmp/"@ + episode_id@ + ".pdf"@);
    }
    p
}

/// The multipart fields of a PDF upload that are read.
#[derive(Clone, Copy, Debug, PartialEq, Eq, Structural)]
pub enum UploadField {
    File,
    Title,
    TtsProvider,
    Other,
}

/// Which field of an upload a multipart part is, by its name.
pub fn upload_field(name: &str) -> (f: UploadField)
    ensures
        f == (if name@ == "file"@ {
            UploadField::File
        } else if name@ == "title"@ {
            UploadField::Title
        } else if name@ == "tts_provider"@ {
            UploadField::TtsProvider
        } else {
            UploadField::Other
        }),
{
    if str_eq(name, "file") {
        UploadField::File
    } else if str_eq(name, "title") {
        UploadField::Title
    } else if str_eq(name, "tts_provider") {
        UploadField::TtsProvider
    } else {
        UploadField::Other
    }
}

/// The checks of an upload once its fields are read: the file must be
/// there, then the speech provider must be valid; gives the provider.
pub fn accept_upload(has_file: bool, tts_provider: Option<&String>, default: String) -> (r: Result<String, AppError>)
    ensures
        !has_file ==> (r matches Err(AppError::BadRequest(m)) && m@ == "No file field"@),
        has_file ==> match tts_provider {
            Some(p) => if p@ == "google"@ {
                r matches Ok(v) && v@ == p@
            } else {
                r matches Err(AppError::BadRequest(m)) && m@ == "Invalid tts_provider: "@ + p@
            },
            None => r matches Ok(v) && v == default,
        },
{
    if !has_file {
        return Err(AppError::BadRequest(owned("No file field")));
    }
    validate_tts_provider(tts_provider, default)
}

} // verus!
