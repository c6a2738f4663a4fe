use tts_podcast::backend::tts::{chunk_text, split_sentences};

#[test]
fn backend_split_sentences_basic() {
    let result = split_sentences("Hello world. How are you? Fine!");
    assert_eq!(result, vec!["Hello world.", " How are you?", " Fine!"]);
}

#[test]
fn backend_split_sentences_no_punctuation() {
    let result = split_sentences("No ending punctuation");
    assert_eq!(result, vec!["No ending punctuation"]);
}

#[test]
fn test_split_sentences_empty() {
    let result = split_sentences("");
    assert!(result.is_empty());
}

#[test]
fn test_chunk_text_single_chunk() {
    let text = "Short text.";
    let chunks = chunk_text(text, 100);
    assert_eq!(chunks, vec!["Short text."]);
}

#[test]
fn test_chunk_text_splits_on_sentence_boundary() {
    let text = "First sentence. Second sentence. Third sentence.";
    let chunks = chunk_text(text, 20);
    assert_eq!(chunks.len(), 3);
    assert_eq!(chunks[0], "First sentence.");
    assert_eq!(chunks[1], " Second sentence.");
    assert_eq!(chunks[2], " Third sentence.");
}

#[test]
fn test_chunk_text_empty() {
    let chunks = chunk_text("", 100);
    assert_eq!(chunks, vec![""]);
}

#[test]
fn test_chunk_text_long_sentence_not_split() {
    let text = "This is a very long sentence that exceeds the max.";
    let chunks = chunk_text(text, 10);
    assert_eq!(chunks, vec!["This is a very long sentence that exceeds the max."]);
}

#[test]
fn test_chunk_text_respects_max_chars() {
    let sentences: Vec<String> = (0..10).map(|i| format!("Sentence {i}.")).collect();
    let text = sentences.join(" ");
    let chunks = chunk_text(&text, 50);
    for chunk in &chunks {
        assert!(chunk.len() <= 50 || !chunk.contains(". "));
    }
    let reassembled: String = chunks.join("");
    assert_eq!(reassembled, text);
}

#[test]
fn backend_split_sentences_lone_terminator_is_not_a_sentence() {
    // A terminator that would make up a sentence on its own does not end one.
    let result = split_sentences("?!Yes.");
    assert_eq!(result, vec!["?!", "Yes."]);
}

#[test]
fn backend_chunk_text_closes_a_chunk_only_on_overflow() {
    let chunks = chunk_text("One. Two. Three.", 9);
    assert_eq!(chunks, vec!["One. Two.".to_string(), " Three.".to_string()]);
    assert_eq!(chunks.concat(), "One. Two. Three.");
}
