//! The summarization stage: its prompt and the document it yields.
use vstd::prelude::*;
use crate::document::{clone_opt, opt_view, Document};
use crate::text::{push_str, trim, word_count};

verus! {

/// System prompt of the summarization call.
pub const SUMMARIZE_SYSTEM_PROMPT: &'static str = r#"You are preparing a concise podcast-style summary of a text.
Condense the content into a clear, engaging summary suitable for listening.

Rules:
- Capture the key ideas, findings, and arguments.
- Aim for roughly 20-30% of the original length.
- Use natural, spoken-style language — this will be read aloud by TTS.
- Maintain the logical flow: introduce the topic, cover main points, conclude.
- Do not add your own opinions or commentary.
- Do not use bullet points or numbered lists — write in flowing paragraphs.
- Output only the summary text, nothing else."#;

/// Appended to the prompt before the focus.
pub const FOCUS_HEAD: &'static str = "\n\nFocus: ";

/// Appended after the focus.
pub const FOCUS_TAIL: &'static str = "\nPrioritize content related to this focus and omit or compress everything else. If the focus is entirely absent from the source, summarize the source normally.";

/// The summarization prompt: with a (trimmed, non-empty) focus, the prompt
/// followed by the focus instruction.
pub open spec fn summarize_prompt(focus: Option<Seq<char>>) -> Seq<char> {
    match focus {
        Some(f) => if trim(f).len() > 0 {
            SUMMARIZE_SYSTEM_PROMPT@ + FOCUS_HEAD@ + trim(f) + FOCUS_TAIL@
        } else {
            SUMMARIZE_SYSTEM_PROMPT@
        },
        None => SUMMARIZE_SYSTEM_PROMPT@,
    }
}

/// Builds the summarization prompt for an optional focus.
pub fn summarize_system_prompt(focus: Option<&str>) -> (r: String)
    ensures
        r@ == summarize_prompt(match focus {
            Some(f) => Some(f@),
            None => None,
        }),
{
    let mut s = String::new();
    push_str(&mut s, SUMMARIZE_SYSTEM_PROMPT);
    match focus {
        Some(f) => {
            let t = crate::text::trim_str(f);
            if !t.as_str().is_empty() {
                push_str(&mut s, FOCUS_HEAD);
                push_str(&mut s, t.as_str());
                push_str(&mut s, FOCUS_TAIL);
            }
        },
        None => {},
    }
    proof {
        assert(Seq::<char>::empty() + SUMMARIZE_SYSTEM_PROMPT@ =~= SUMMARIZE_SYSTEM_PROMPT@);
    }
    s
}

/// The document with its transcript set, and its word count taken from
/// the transcript; the other fields are kept.
pub fn with_transcript(doc: &Document, transcript: String) -> (d: Document)
    ensures
        opt_view(d.title) == opt_view(doc.title),
        d.source_type@ == doc.source_type@,
        opt_view(d.raw_text) == opt_view(doc.raw_text),
        opt_view(d.cleaned_text) == opt_view(doc.cleaned_text),
        opt_view(d.transcript) == Some(transcript@),
        d.word_count matches Some(n) && n == word_count(transcript@),
{
    let n = crate::text::count_words(transcript.as_str());
    Document {
        title: clone_opt(&doc.title),
        source_type: doc.source_type.clone(),
        raw_text: clone_opt(&doc.raw_text),
        cleaned_text: clone_opt(&doc.cleaned_text),
        transcript: Some(transcript),
        word_count: Some(n),
    }
}

} // verus!
