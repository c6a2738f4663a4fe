//! Cleaning in the first server: one call, with a prompt and a model
//! tier chosen by the source type.
use vstd::prelude::*;
use crate::clean::academic;

verus! {

/// System prompt for cleaning a web article.
pub const ARTICLE_SYSTEM_PROMPT: &'static str = r#"You are preparing a web article for text-to-speech conversion.
Transform the provided text so it reads naturally when spoken aloud.

Rules:
- Remove any remaining navigation text, share buttons, author bios,
  newsletter signup prompts, or other non-article content.
- Fix encoding artifacts. Curly quotes and em-dashes are fine.
- Keep the article's natural structure and flow.
- Do not summarize or omit any article content.
- Do not add commentary.
- Output only the cleaned article text, nothing else."#;

/// System prompt for cleaning an academic paper.
pub const ACADEMIC_SYSTEM_PROMPT: &'static str = r#"You are preparing an academic paper for text-to-speech conversion.
Transform the provided text so it reads naturally when spoken aloud.

Rules:
- Remove all citation markers: [1], [23], (Smith et al., 2019), etc.
- Remove figure and table references: "as shown in Figure 3" → omit entirely.
- Rewrite inline equations as spoken English:
    \frac{a}{b} → "a over b"
    x^2 → "x squared"
    \sum_{i=1}^{n} → "the sum from i equals 1 to n of"
    For complex equations, describe what they compute rather than reading symbol-by-symbol.
- Expand abbreviations on first use if the expansion aids comprehension.
- Replace "in the next section" / "as mentioned above" with brief inline context.
- Remove LaTeX artifacts, section numbering (e.g. "3.2 Method"), footnote markers.
- Keep all substantive content — do not summarize or omit findings, methods, or discussion.
- Output only the cleaned text, nothing else."#;

/// The model tiers this cleaning uses.
#[derive(Clone, Copy, Debug, PartialEq, Eq, Structural)]
pub enum CleanTier {
    /// The largest model, for papers.
    Opus,
    /// The mid-size model, for articles.
    Sonnet,
}

/// The prompt and model tier for a source type: papers ("arxiv", "pdf")
/// get the academic prompt and the largest model, anything else the
/// article prompt and the mid-size one.
pub fn clean_setup(source_type: &str) -> (r: (&'static str, CleanTier))
    ensures
        academic(source_type@) ==> r.0@ == ACADEMIC_SYSTEM_PROMPT@ && r.1 == CleanTier::Opus,
        !academic(source_type@) ==> r.0@ == ARTICLE_SYSTEM_PROMPT@ && r.1 == CleanTier::Sonnet,
{
    if crate::clean::is_academic(source_type) {
        (ACADEMIC_SYSTEM_PROMPT, CleanTier::Opus)
    } else {
        (ARTICLE_SYSTEM_PROMPT, CleanTier::Sonnet)
    }
}

} // verus!
