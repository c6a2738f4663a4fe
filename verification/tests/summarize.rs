use tts_podcast::document::Document;
use tts_podcast::summarize::{summarize_system_prompt, with_transcript, FOCUS_HEAD, FOCUS_TAIL, SUMMARIZE_SYSTEM_PROMPT};

#[test]
fn summarize_prompt_with_and_without_focus() {
    assert_eq!(summarize_system_prompt(None), SUMMARIZE_SYSTEM_PROMPT);
    assert_eq!(summarize_system_prompt(Some("   ")), SUMMARIZE_SYSTEM_PROMPT);
    assert_eq!(
        summarize_system_prompt(Some("  the results  ")),
        format!("{SUMMARIZE_SYSTEM_PROMPT}{FOCUS_HEAD}the results{FOCUS_TAIL}")
    );
    assert!(summarize_system_prompt(Some("x")).contains("\n\nFocus: x\nPrioritize content"));
}

#[test]
fn summarize_document_gets_transcript_and_count() {
    let doc = Document {
        title: Some("T".into()),
        source_type: "article".into(),
        raw_text: Some("raw".into()),
        cleaned_text: Some("cleaned text".into()),
        transcript: None,
        word_count: Some(2),
    };
    let out = with_transcript(&doc, "A short  transcript\nhere.".into());
    assert_eq!(out.transcript.as_deref(), Some("A short  transcript\nhere."));
    assert_eq!(out.word_count, Some(4));
    assert_eq!(out.cleaned_text.as_deref(), Some("cleaned text"));
    assert_eq!(out.title.as_deref(), Some("T"));
    assert_eq!(out.source_type, "article");
    assert_eq!(out.tts_text(), Some("A short  transcript\nhere."));
}
