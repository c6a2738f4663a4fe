use tts_podcast::tts::{
    build_chunks, build_ssml, parse_sections, split_sentences, sub_chunk, SectionText,
    MAX_SENTENCE_CHARS,
};

#[test]
fn tts_test_split_sentences_basic() {
    let result = split_sentences("Hello world. How are you? Fine!");
    assert_eq!(result, vec!["Hello world.", " How are you?", " Fine!"]);
}

#[test]
fn tts_test_split_sentences_no_punctuation() {
    let result = split_sentences("No ending punctuation");
    assert_eq!(result, vec!["No ending punctuation"]);
}

#[test]
fn test_split_sentences_breaks_long_run_on() {
    let segment = "Define the strategy by doing X across the enterprise";
    let long = format!(
        "Our strategic priorities are: {}",
        vec![segment; 40].join(", ")
    );
    assert!(long.len() > MAX_SENTENCE_CHARS);
    let pieces = split_sentences(&long);
    assert!(pieces.len() > 1, "expected multi-piece split, got {}", pieces.len());
    for p in &pieces {
        assert!(p.len() <= MAX_SENTENCE_CHARS, "piece over limit: {} chars", p.len());
    }
}

#[test]
fn test_split_sentences_keeps_decimal_numbers_intact() {
    let result = split_sentences("GPT 3.5 is fast. Version 1.2.3 shipped.");
    assert_eq!(result, vec!["GPT 3.5 is fast.", " Version 1.2.3 shipped."]);
}

#[test]
fn test_split_sentences_keeps_abbreviations_intact() {
    let result = split_sentences("Dr. Smith met Prof. Jones. They left.");
    assert_eq!(result, vec!["Dr. Smith met Prof. Jones.", " They left."]);
}

#[test]
fn test_split_sentences_keeps_acronyms_intact() {
    let result = split_sentences("The U.S. team met at 9 a.m., e.g. Monday. Done.");
    assert_eq!(result, vec!["The U.S. team met at 9 a.m., e.g. Monday.", " Done."]);
}

#[test]
fn test_split_sentences_hard_split_no_punctuation() {
    let long: String = "word ".repeat(400);
    assert!(long.len() > MAX_SENTENCE_CHARS);
    let pieces = split_sentences(&long);
    for p in &pieces {
        assert!(p.len() <= MAX_SENTENCE_CHARS);
    }
}

#[test]
fn test_sub_chunk_single() {
    let chunks = sub_chunk("Short text.", 100);
    assert_eq!(chunks, vec!["Short text."]);
}

#[test]
fn test_sub_chunk_splits_on_sentence_boundary() {
    let chunks = sub_chunk("First sentence. Second sentence. Third sentence.", 20);
    assert_eq!(chunks.len(), 3);
}

#[test]
fn test_parse_sections_none() {
    let r = parse_sections("Just a body with no headers.\n\nMore text.");
    assert!(r.is_empty());
}

#[test]
fn test_parse_sections_basic() {
    let text = "## Abstract\n\nAbstract body.\n\n## Introduction\n\nIntro body.";
    let r = parse_sections(text);
    assert_eq!(r.len(), 2);
    assert_eq!(r[0].title.as_deref(), Some("Abstract"));
    assert_eq!(r[0].body, "Abstract\n\nAbstract body.");
    assert_eq!(r[1].title.as_deref(), Some("Introduction"));
    assert_eq!(r[1].body, "Introduction\n\nIntro body.");
}

#[test]
fn test_parse_sections_with_preface() {
    let text = "Preamble.\n\n## Section One\n\nBody.";
    let r = parse_sections(text);
    assert_eq!(r.len(), 2);
    assert_eq!(r[0].title, None);
    assert_eq!(r[0].body, "Preamble.");
    assert_eq!(r[1].body, "Section One\n\nBody.");
    assert_eq!(r[1].title.as_deref(), Some("Section One"));
}

#[test]
fn test_parse_sections_ignores_subheaders() {
    let text = "## Main\n\nBody.\n\n### Sub\n\nSubbody.";
    let r = parse_sections(text);
    assert_eq!(r.len(), 1);
    assert_eq!(r[0].title.as_deref(), Some("Main"));
    assert!(r[0].body.starts_with("Main\n\n"));
    assert!(r[0].body.contains("### Sub"));
}

#[test]
fn test_build_chunks_marks_section_ends() {
    let sections = vec![
        SectionText { title: Some("A".into()), body: "Sentence one.".into() },
        SectionText { title: Some("B".into()), body: "Sentence two.".into() },
    ];
    let chunks = build_chunks(&sections, 1000);
    assert_eq!(chunks.len(), 2);
    assert!(chunks[0].append_pause, "end of non-final section should pause");
    assert!(!chunks[1].append_pause, "final section does not pause");
}

#[test]
fn test_build_ssml_wraps_paragraphs_and_sentences() {
    let ssml = build_ssml("First sentence. Second sentence.\n\nNew paragraph. With two sentences.");
    assert!(ssml.starts_with("<speak>"));
    assert!(ssml.ends_with("</speak>"));
    assert_eq!(ssml.matches("<p>").count(), 2);
    assert_eq!(ssml.matches("</p>").count(), 2);
    assert_eq!(ssml.matches("<s>").count(), 4);
    assert_eq!(ssml.matches("</s>").count(), 4);
    assert!(ssml.contains("<s>First sentence.</s>"));
    assert!(ssml.contains("<s>New paragraph.</s>"));
}

#[test]
fn test_build_ssml_escapes_xml_chars() {
    let ssml = build_ssml("Tom & Jerry said \"hi\" to <you>.");
    assert!(ssml.contains("&amp;"));
    assert!(ssml.contains("&quot;"));
    assert!(ssml.contains("&lt;you&gt;"));
    assert!(!ssml.contains(" & "));
    assert!(!ssml.contains("<you>"));
}

#[test]
fn test_build_ssml_empty_input() {
    let ssml = build_ssml("   \n\n   ");
    assert!(ssml.starts_with("<speak>") && ssml.ends_with("</speak>"));
    assert!(ssml.contains("<p>"));
}

#[test]
fn test_build_ssml_single_paragraph() {
    let ssml = build_ssml("Just one sentence.");
    assert_eq!(ssml.matches("<p>").count(), 1);
    assert_eq!(ssml.matches("<s>").count(), 1);
    assert!(ssml.contains("<s>Just one sentence.</s>"));
}

#[test]
fn tts_abbreviation_periods() {
    assert!(tts_podcast::tts::is_abbreviation_period("Dr."));
    assert!(tts_podcast::tts::is_abbreviation_period("see e.g."));
    assert!(tts_podcast::tts::is_abbreviation_period("and so on, ETC."));
    assert!(tts_podcast::tts::is_abbreviation_period("Prof."));
    assert!(!tts_podcast::tts::is_abbreviation_period("Hello."));
    assert!(!tts_podcast::tts::is_abbreviation_period("3."));
    assert!(!tts_podcast::tts::is_abbreviation_period("Dr"));
}

#[test]
fn tts_rfind_word_boundary_in_bytes() {
    assert_eq!(tts_podcast::tts::rfind_word_boundary("hello world foo", 12), Some(11));
    // A whitespace starting exactly at the limit counts.
    assert_eq!(tts_podcast::tts::rfind_word_boundary("hello world", 5), Some(5));
    assert_eq!(tts_podcast::tts::rfind_word_boundary("ab c", 2), Some(2));
    assert_eq!(tts_podcast::tts::rfind_word_boundary("abc d", 2), None);
    assert_eq!(tts_podcast::tts::rfind_word_boundary("h\u{e9}llo w\u{f6}rld", 8), Some(5));
    assert_eq!(tts_podcast::tts::rfind_word_boundary("a b", 100), Some(1));
}

#[test]
fn tts_config_builders() {
    let c = tts_podcast::tts::TtsConfig::new("key".into());
    assert_eq!(c.voice, "en-US-Chirp3-HD-Puck");
    assert!(c.lexicon.is_empty());
    let c = c.with_voice("en-US-Journey-D".into()).with_lexicon(vec![tts_podcast::tts::LexiconEntry {
        term: "SQL".into(),
        spoken: "sequel".into(),
    }]);
    assert_eq!(c.google_api_key, "key");
    assert_eq!(c.voice, "en-US-Journey-D");
    assert_eq!(c.lexicon.len(), 1);
    assert_eq!(c.lexicon[0].spoken, "sequel");
}

#[test]
fn tts_sentences_fit_the_character_limit() {
    let texts = vec![
        "a".repeat(2500),
        "\u{e9}".repeat(1000),
        format!("{}; {}, {}.", "word ".repeat(150), "more ".repeat(150), "end ".repeat(150)),
    ];
    for t in &texts {
        let pieces = split_sentences(t);
        assert!(!pieces.is_empty());
        for p in &pieces {
            assert!(p.chars().count() <= MAX_SENTENCE_CHARS + 2, "piece of {} chars", p.chars().count());
        }
    }
    let pieces = split_sentences(&"\u{e9}".repeat(1000));
    assert_eq!(pieces[0].chars().count(), MAX_SENTENCE_CHARS + 2);
    assert!(pieces[0].ends_with(". "));
}

#[test]
fn tts_build_ssml_exact_output() {
    assert_eq!(build_ssml("Just one sentence."), "<speak><p><s>Just one sentence.</s></p></speak>");
    assert_eq!(build_ssml("   \n\n   "), "<speak><p><s></s></p></speak>");
    assert_eq!(
        build_ssml("Tom & Jerry. Next!\n\nSecond para."),
        "<speak><p><s>Tom &amp; Jerry.</s><s>Next!</s></p><p><s>Second para.</s></p></speak>"
    );
}

#[test]
fn tts_short_text_sentences_reassemble() {
    let text = "Dr. Smith paid $3.50 for it. Really? Yes! And e.g. more";
    let pieces = split_sentences(text);
    assert_eq!(pieces.concat(), text);
    assert_eq!(pieces, vec!["Dr. Smith paid $3.50 for it.", " Really?", " Yes!", " And e.g. more"]);
}

#[test]
fn tts_parse_sections_ignores_deeper_headers() {
    assert!(parse_sections("### Deep only\n\nText.\n## #tag\nMore.").is_empty());
    let r = parse_sections("  ## Indented\nBody text.");
    assert_eq!(r.len(), 1);
    assert_eq!(r[0].title.as_deref(), Some("Indented"));
    assert_eq!(r[0].body, "Indented\n\nBody text.");
}
