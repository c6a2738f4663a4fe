//! Decisions of the command-line tool: which provider and extractor a name
//! selects, and the source type of a pipeline input.
use vstd::prelude::*;
use crate::provider::{gemini_default_model, Provider};
use crate::text::{contains, ends_with, owned, push_str, str_contains, str_ends_with, str_eq};

verus! {

/// Why a command could not be set up.
pub enum CliError {
    /// The provider name is neither "anthropic" nor "gemini".
    UnknownProvider(String),
    /// The extractor name is neither "anthropic" nor "gemini".
    UnknownExtractor(String),
    /// The environment variable holding the needed key is not set.
    MissingKey(&'static str),
}

/// The message of an unknown name.
pub open spec fn unknown_message(what: Seq<char>, name: Seq<char>) -> Seq<char> {
    "Unknown "@ + what + ": "@ + name + " (expected anthropic or gemini)"@
}

/// `Unknown {what}: {name} (expected anthropic or gemini)`.
pub fn unknown_name_message(what: &str, name: &str) -> (r: String)
    ensures
        r@ == unknown_message(what@, name@),
{
    let mut m = owned("Unknown ");
    push_str(&mut m, what);
    push_str(&mut m, ": ");
    push_str(&mut m, name);
    push_str(&mut m, " (expected anthropic or gemini)");
    proof {
        assert(m@ =~= unknown_message(what@, name@));
    }
    m
}

/// The provider a name selects, with its key from the environment:
/// "anthropic" needs the Anthropic key, "gemini" the Studio key (with the
/// default model); any other name is refused.
pub fn make_provider(name: &str, anthropic_key: Option<String>, studio_key: Option<String>) -> (r: Result<Provider, CliError>)
    ensures
        name@ == "anthropic"@ ==> match anthropic_key {
            Some(k) => (r matches Ok(Provider::Anthropic { api_key }) && api_key@ == k@),
            None => (r matches Err(CliError::MissingKey(v)) && v@ == "ANTHROPIC_API_KEY"@),
        },
        name@ == "gemini"@ ==> match studio_key {
            Some(k) => (r matches Ok(Provider::Gemini { api_key, model }) && api_key@ == k@ && model@
                == gemini_default_model()),
            None => (r matches Err(CliError::MissingKey(v)) && v@ == "GOOGLE_STUDIO_API_KEY"@),
        },
        name@ != "anthropic"@ && name@ != "gemini"@ ==> (r matches Err(CliError::UnknownProvider(n))
            && n@ == name@),
{
    proof {
        reveal_strlit("anthropic");
        reveal_strlit("gemini");
        assert("gemini"@.len() == 6 && "anthropic"@.len() == 9);
        assert("gemini"@ != "anthropic"@);
    }
    if str_eq(name, "anthropic") {
        match anthropic_key {
            Some(k) => Ok(Provider::anthropic(k)),
            None => Err(CliError::MissingKey("ANTHROPIC_API_KEY")),
        }
    } else if str_eq(name, "gemini") {
        match studio_key {
            Some(k) => Ok(Provider::gemini_default(k)),
            None => Err(CliError::MissingKey("GOOGLE_STUDIO_API_KEY")),
        }
    } else {
        Err(CliError::UnknownProvider(owned(name)))
    }
}

/// The PDF extractors.
#[derive(Clone, Copy, Debug, PartialEq, Eq, Structural)]
pub enum Extractor {
    /// Page-by-page vision extraction.
    Pages,
    /// One inline Gemini request.
    Gemini,
}

/// The extractor a name selects: "anthropic" the page-by-page one,
/// "gemini" the inline one; any other name is refused.
pub fn choose_extractor(name: &str) -> (r: Result<Extractor, CliError>)
    ensures
        name@ == "anthropic"@ ==> r matches Ok(Extractor::Pages),
        name@ == "gemini"@ ==> r matches Ok(Extractor::Gemini),
        name@ != "anthropic"@ && name@ != "gemini"@ ==> (r matches Err(CliError::UnknownExtractor(n))
            && n@ == name@),
{
    proof {
        reveal_strlit("anthropic");
        reveal_strlit("gemini");
        assert("gemini"@.len() == 6 && "anthropic"@.len() == 9);
        assert("gemini"@ != "anthropic"@);
    }
    if str_eq(name, "anthropic") {
        Ok(Extractor::Pages)
    } else if str_eq(name, "gemini") {
        Ok(Extractor::Gemini)
    } else {
        Err(CliError::UnknownExtractor(owned(name)))
    }
}

/// The source type of a pipeline input: "pdf" for a `.pdf` name or an
/// existing file, "arxiv" for arXiv or ar5iv URLs, "article" otherwise.
pub open spec fn cli_source_type(source: Seq<char>, path_exists: bool) -> Seq<char> {
    if ends_with(source, ".pdf"@) || path_exists {
        "pdf"@
    } else if contains(source, "arxiv.org"@) || contains(source, "ar5iv.org"@) {
        "arxiv"@
    } else {
        "article"@
    }
}

/// Detects the source type of a pipeline input; `path_exists` tells
/// whether a file of that name exists.
pub fn detect_source_type(source: &str, path_exists: bool) -> (r: String)
    ensures
        r@ == cli_source_type(source@, path_exists),
{
    if str_ends_with(source, ".pdf") || path_exists {
        owned("pdf")
    } else if str_contains(source, "arxiv.org") || str_contains(source, "ar5iv.org") {
        owned("arxiv")
    } else {
        owned("article")
    }
}

/// Whether the pipeline stops after `stage` (printing the document).
pub fn stops_after(stop_after: Option<&str>, stage: &str) -> (b: bool)
    ensures
        b == (stop_after matches Some(s) && s@ == stage@),
{
    match stop_after {
        Some(s) => str_eq(s, stage),
        None => false,
    }
}

} // verus!
