use tts_podcast::anthropic::{ContentBlock, MessageContent};
use tts_podcast::pdf::{
    assemble_pages, page_outcome, page_path, page_path_candidates, parse_title_and_text,
    title_prompt, within_inline_limit, PageResult, PageText, PdfError,
};

#[test]
fn test_parse_title_and_text_with_prefix() {
    let input = "TITLE: Spanner: Google's Database\n\nAbstract\nThis paper describes...";
    let (title, text) = parse_title_and_text(input);
    assert_eq!(title, "Spanner: Google's Database");
    assert!(text.starts_with("Abstract"));
}

#[test]
fn test_parse_title_and_text_without_prefix() {
    let input = "No title prefix here. Just content.";
    let (title, text) = parse_title_and_text(input);
    assert_eq!(title, "Untitled PDF");
    assert_eq!(text, input);
}

#[test]
fn pdf_title_prefix_without_newline_has_no_title() {
    let input = "TITLE: only a title";
    let (title, text) = parse_title_and_text(input);
    assert_eq!(title, "Untitled PDF");
    assert_eq!(text, input);
}

#[test]
fn pdf_page_paths() {
    assert_eq!(page_path("/tmp/x_pages_200", 7, 2), "/tmp/x_pages_200/page-07.jpg");
    assert_eq!(page_path("/tmp/x_pages_200", 7, 3), "/tmp/x_pages_200/page-007.jpg");
    assert_eq!(page_path("d", 123, 2), "d/page-123.jpg");
    assert_eq!(
        page_path_candidates("d", 5),
        vec!["d/page-05.jpg", "d/page-005.jpg", "d/page-0005.jpg"]
    );
}

#[test]
fn pdf_page_outcome_sums_attempts() {
    let attempts = vec![
        PageResult { text: String::new(), skipped: true, input_tokens: 0, output_tokens: 0 },
        PageResult { text: "Body".into(), skipped: false, input_tokens: 10, output_tokens: 4 },
    ];
    let p = page_outcome(&attempts);
    assert_eq!(p.text, "Body");
    assert_eq!((p.input_tokens, p.output_tokens), (10, 4));
}

#[test]
fn pdf_assemble_pages() {
    let pages = vec![
        PageText { text: "One".into(), input_tokens: 5, output_tokens: 1 },
        PageText { text: String::new(), input_tokens: 0, output_tokens: 0 },
        PageText { text: "Three".into(), input_tokens: 7, output_tokens: 2 },
    ];
    let (text, usages) = match assemble_pages(&pages, "model-x") {
        Ok(x) => x,
        Err(_) => panic!("expected text"),
    };
    assert_eq!(text, "One\n\nThree");
    assert_eq!(usages.len(), 2);
    assert_eq!(usages[1].input_tokens, 7);
    assert_eq!(usages[1].model, "model-x");
    let empty = vec![PageText { text: String::new(), input_tokens: 3, output_tokens: 0 }];
    assert!(matches!(assemble_pages(&empty, "m"), Err(PdfError::EmptyText)));
}

#[test]
fn pdf_title_prompt_takes_first_2000_chars() {
    let text = "é".repeat(2500);
    let p = title_prompt(&text);
    assert!(p.starts_with("What is the title of this document? Output only the title, nothing else.\n\n"));
    assert_eq!(p.chars().count(), 2000 + "What is the title of this document? Output only the title, nothing else.\n\n".len());
}

#[test]
fn pdf_inline_limit() {
    assert!(within_inline_limit(50 * 1024 * 1024));
    assert!(!within_inline_limit(50 * 1024 * 1024 + 1));
}

fn image_data(m: &tts_podcast::anthropic::Message) -> (String, String, String) {
    match &m.content {
        MessageContent::Blocks(bs) => {
            let (media, data) = match &bs[0] {
                ContentBlock::Image { kind, source } => {
                    assert_eq!(kind, "image");
                    assert_eq!(source.kind, "base64");
                    (source.media_type.clone(), source.data.clone())
                }
                _ => panic!("first block must be an image"),
            };
            let text = match &bs[1] {
                ContentBlock::Text { kind, text } => {
                    assert_eq!(kind, "text");
                    text.clone()
                }
                _ => panic!("second block must be text"),
            };
            (media, data, text)
        }
        _ => panic!("expected blocks"),
    }
}

#[test]
fn pdf_page_message_carries_base64_jpeg() {
    let m = tts_podcast::pdf::page_message(b"hello", 3);
    assert_eq!(m.role, "user");
    let (media, data, text) = image_data(&m);
    assert_eq!(media, "image/jpeg");
    assert_eq!(data, "aGVsbG8=");
    assert_eq!(text, "Extract all text from page 3 of this document.");
    assert_eq!(tts_podcast::tts::decode_audio_content(&data).ok(), Some(b"hello".to_vec()));
}

#[test]
fn pdf_document_message_carries_base64_pdf() {
    let m = tts_podcast::pdf::document_message(b"%PDF-1.4");
    let (media, data, text) = image_data(&m);
    assert_eq!(media, "application/pdf");
    assert_eq!(data, "JVBERi0xLjQ=");
    assert_eq!(text, "Extract all text from this PDF document.");
}

#[test]
fn pdf_gemini_inline_data_within_limit() {
    assert_eq!(tts_podcast::pdf::gemini_inline_data(b"ab").as_deref(), Some("YWI="));
    assert_eq!(tts_podcast::pdf::gemini_inline_data(b"").as_deref(), Some(""));
    let big = vec![0u8; 50 * 1024 * 1024 + 1];
    assert_eq!(tts_podcast::pdf::gemini_inline_data(&big), None);
}

#[test]
fn tts_decode_audio_content_rejects_invalid_base64() {
    assert_eq!(tts_podcast::tts::decode_audio_content("SUQz").ok(), Some(b"ID3".to_vec()));
    assert_eq!(tts_podcast::tts::decode_audio_content("not base64!").err().as_deref(), Some("Failed to decode Google TTS audio"));
}
