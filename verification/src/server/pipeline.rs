//! Decisions of the pipeline stages around scraping and PDF extraction.
use vstd::prelude::*;
use crate::document::opt_view;
use crate::text::{owned, push_str, str_eq};

verus! {

/// Where a PDF waits for extraction.
pub fn pdf_path(episode_id: &str) -> (r: String)
    ensures
        r@ == "/data/"@ + episode_id@ + ".pdf"@,
{
    let mut p = owned("/data/");
    push_str(&mut p, episode_id);
    push_str(&mut p, ".pdf");
    proof {
        assert(p@ =~= "/data/"@ + episode_id@ + ".pdf"@);
    }
    p
}

/// The PDF of an arXiv paper, fetched when its HTML cannot be scraped.
pub fn arxiv_pdf_url(arxiv_id: &str) -> (r: String)
    ensures
        r@ == "https://arxiv.org/pdf/"@ + arxiv_id@,
{
    let mut p = owned("https://arxiv.org/pdf/");
    push_str(&mut p, arxiv_id);
    proof {
        assert(p@ =~= "https://arxiv.org/pdf/"@ + arxiv_id@);
    }
    p
}

/// The title saved for a scraped document: its own, or the source URL.
pub fn scraped_title(doc_title: &Option<String>, source_url: &str) -> (r: String)
    ensures
        r@ == (match opt_view(*doc_title) {
            Some(t) => t,
            None => source_url@,
        }),
{
    match doc_title {
        Some(t) => t.clone(),
        None => owned(source_url),
    }
}

/// The title saved after PDF extraction: an uploaded PDF keeps the title
/// its uploader gave (anything but "PDF Upload"); otherwise the extracted
/// title, or "Untitled PDF".
pub open spec fn pdf_final_title(
    source_type: Seq<char>,
    current_title: Seq<char>,
    extracted: Option<Seq<char>>,
) -> Seq<char> {
    if source_type == "pdf"@ && current_title != "PDF Upload"@ {
        current_title
    } else {
        match extracted {
            Some(t) => t,
            None => "Untitled PDF"@,
        }
    }
}

/// Chooses the title saved after PDF extraction.
pub fn final_pdf_title(source_type: &str, current_title: &str, extracted: &Option<String>) -> (r: String)
    ensures
        r@ == pdf_final_title(source_type@, current_title@, opt_view(*extracted)),
{
    if str_eq(source_type, "pdf") && !str_eq(current_title, "PDF Upload") {
        owned(current_title)
    } else {
        match extracted {
            Some(t) => t.clone(),
            None => owned("Untitled PDF"),
        }
    }
}

/// Whether the configured PDF extractor is the inline Gemini one (any
/// other name selects the page-by-page extractor).
pub fn uses_gemini_extractor(pdf_extractor: &str) -> (b: bool)
    ensures
        b == (pdf_extractor@ == "gemini"@),
{
    str_eq(pdf_extractor, "gemini")
}

} // verus!
