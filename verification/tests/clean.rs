use tts_podcast::clean::{
    assemble_cleaned, chunk_model, chunk_system_prompt, chunk_user_message, find_anchor,
    is_academic, is_math_heavy, locate_sections, max_output_tokens_for, plan_chunks, retry_chunk,
    rfind_anchor, sections_locatable, single_system_prompt, strip_json_fences, tail, Chunk, CleanModel,
    LocateError, Outline, OutlineSection, Role, ACADEMIC_SYSTEM_PROMPT, ARTICLE_HEADER_RULE,
    ARTICLE_SYSTEM_PROMPT, CHUNK_ACADEMIC_RULES, CLOSE_PREFACE, CONTINUE_PREFACE, OPEN_PREFACE,
    PREV_CONTEXT_HEAD, PREV_CONTEXT_TAIL,
};

fn outline(sections: &[(&str, &str)], end: Option<&str>) -> Outline {
    Outline {
        intro_line: None,
        sections: sections
            .iter()
            .map(|(t, a)| OutlineSection { title: t.to_string(), start_anchor: a.to_string() })
            .collect(),
        main_body_end_anchor: end.map(|e| e.to_string()),
    }
}

fn paper() -> (String, usize, usize) {
    let intro = format!("Intro start {}", "x".repeat(400));
    let methods = format!(" Methods start {}", "y".repeat(400));
    let refs = " References [1] Someone.";
    let raw = format!("{intro}{methods}{refs}");
    let methods_at = intro.len() + 1;
    let end_at = intro.len() + methods.len() + 1;
    (raw, methods_at, end_at)
}

#[test]
fn clean_tail_keeps_last_chars_trimmed() {
    assert_eq!(tail("  hello world  ", 5), "rld");
    assert_eq!(tail(" ab ", 10), "ab");
    assert_eq!(tail("abc", 3), "abc");
}

#[test]
fn clean_max_output_tokens_clamped() {
    assert_eq!(max_output_tokens_for(0), 4096);
    assert_eq!(max_output_tokens_for(6144), 4096);
    assert_eq!(max_output_tokens_for(6147), 4097);
    assert_eq!(max_output_tokens_for(30000), 12048);
    assert_eq!(max_output_tokens_for(300000), 32768);
}

#[test]
fn clean_math_density_threshold() {
    let plain = vec!["word"; 197].join(" ");
    // 200 words, 3 marks: exactly 15 per 1000, not more.
    assert!(!is_math_heavy(&format!("{plain} \\a \\b \\c")));
    let fewer = vec!["word"; 196].join(" ");
    // 199 words, 3 marks: just over.
    assert!(is_math_heavy(&format!("{fewer} \\a \\b \\c")));
    assert!(is_math_heavy("α β γ"));
    assert!(!is_math_heavy(""));
    assert_eq!(chunk_model("∑ x ≤ y"), CleanModel::Sonnet);
    assert_eq!(chunk_model("plain words only"), CleanModel::Haiku);
}

#[test]
fn clean_strip_json_fences() {
    assert_eq!(strip_json_fences("```json\n{\"a\":1}\n```"), "{\"a\":1}");
    assert_eq!(strip_json_fences("```\n[]\n```"), "[]");
    assert_eq!(strip_json_fences("  {}  "), "{}");
}

#[test]
fn clean_prompts_by_source_and_role() {
    assert!(is_academic("arxiv") && is_academic("pdf") && !is_academic("article"));
    assert_eq!(single_system_prompt("pdf", "text"), ACADEMIC_SYSTEM_PROMPT);
    assert_eq!(single_system_prompt("article", "a short article"), ARTICLE_SYSTEM_PROMPT);
    let long = vec!["w"; 5001].join(" ");
    assert_eq!(single_system_prompt("article", &long), format!("{ARTICLE_SYSTEM_PROMPT}{ARTICLE_HEADER_RULE}"));
    let exactly = vec!["w"; 5000].join(" ");
    assert_eq!(single_system_prompt("article", &exactly), ARTICLE_SYSTEM_PROMPT);
    assert_eq!(chunk_system_prompt(Role::Open), format!("{OPEN_PREFACE}\n\n{CHUNK_ACADEMIC_RULES}"));
    assert_eq!(chunk_system_prompt(Role::Continue), format!("{CONTINUE_PREFACE}\n\n{CHUNK_ACADEMIC_RULES}"));
    assert_eq!(chunk_system_prompt(Role::Close), format!("{CLOSE_PREFACE}\n\n{CHUNK_ACADEMIC_RULES}"));
}

#[test]
fn clean_chunk_user_message_with_context() {
    let mut c = Chunk {
        title: "Methods".into(),
        text: "Body.".into(),
        is_section_start: false,
        role: Role::Continue,
        prev_tail: Some("tail words".into()),
    };
    assert_eq!(chunk_user_message(&c), format!("{PREV_CONTEXT_HEAD}tail words{PREV_CONTEXT_TAIL}Body."));
    c.prev_tail = Some(String::new());
    assert_eq!(chunk_user_message(&c), "Body.");
    c.prev_tail = None;
    assert_eq!(chunk_user_message(&c), "Body.");
}

#[test]
fn clean_retry_only_first_transient_failure() {
    assert!(retry_chunk(0, "HTTP 503 Service Unavailable"));
    assert!(retry_chunk(0, "request timed out"));
    assert!(!retry_chunk(1, "HTTP 503"));
    assert!(!retry_chunk(0, "400 bad request"));
}

#[test]
fn clean_anchor_falls_back_to_prefix() {
    let hay = "the Introduction of this paper begins here";
    assert_eq!(find_anchor(hay, "Introduction"), Some(4));
    // The anchor is not verbatim, but its first 15 characters are.
    assert_eq!(find_anchor(hay, "  Introduction of this paper, as paraphrased"), Some(4));
    assert_eq!(rfind_anchor("ab ab", "ab"), Some(3));
    assert_eq!(find_anchor(hay, "nothing like it"), None);
}

#[test]
fn clean_locate_sections_slices_body() {
    let (raw, methods_at, end_at) = paper();
    let o = outline(&[("Introduction", "Intro start"), ("Methods", "Methods start")], Some("References"));
    assert!(sections_locatable(&raw, &o));
    let slices = match locate_sections(&raw, &o) {
        Ok(s) => s,
        Err(_) => panic!("sections should be located"),
    };
    assert_eq!(slices.len(), 2);
    assert_eq!(slices[0].0, "Introduction");
    assert_eq!(slices[0].1, raw[..methods_at]);
    assert_eq!(slices[1].0, "Methods");
    assert_eq!(slices[1].1, raw[methods_at..end_at]);
    assert_eq!(format!("{}{}", slices[0].1, slices[1].1), raw[..end_at]);
}

#[test]
fn clean_locate_sections_errors() {
    let (raw, _, _) = paper();
    match locate_sections(&raw, &outline(&[], None)) {
        Err(LocateError::NoSections) => {}
        _ => panic!("expected NoSections"),
    }
    match locate_sections(&raw, &outline(&[("Results", "Results begin")], None)) {
        Err(LocateError::AnchorNotFound { title, anchor }) => {
            assert_eq!(title, "Results");
            assert_eq!(anchor, "Results begin");
        }
        _ => panic!("expected AnchorNotFound"),
    }
    let toc = format!("Contents: Intro start, Methods start. {}", "z".repeat(50));
    match locate_sections(&toc, &outline(&[("Introduction", "Intro start"), ("Methods", "Methods start")], None)) {
        Err(LocateError::TinySection { title, chars }) => {
            assert_eq!(title, "Introduction");
            assert_eq!(chars, "Intro start, ".trim().len());
        }
        _ => panic!("expected TinySection"),
    }
}

#[test]
fn clean_plan_chunks_roles_and_context() {
    let p1 = format!("{}.", "a".repeat(14999));
    let p2 = "b".repeat(15000);
    let sections = vec![("Body".to_string(), format!("{p1}\n\n{p2}"))];
    let chunks = plan_chunks(sections);
    assert_eq!(chunks.len(), 2);
    assert_eq!(chunks[0].role, Role::Open);
    assert!(chunks[0].is_section_start);
    assert_eq!(chunks[0].text, p1);
    assert_eq!(chunks[0].prev_tail, None);
    assert_eq!(chunks[1].role, Role::Close);
    assert!(!chunks[1].is_section_start);
    assert_eq!(chunks[1].text, p2);
    assert_eq!(chunks[1].prev_tail.as_deref(), Some(format!("{}.", "a".repeat(399)).as_str()));

    let small = vec![
        ("One".to_string(), "  first  ".to_string()),
        ("Two".to_string(), "second".to_string()),
        ("Three".to_string(), "third".to_string()),
    ];
    let chunks = plan_chunks(small);
    let roles: Vec<Role> = chunks.iter().map(|c| c.role).collect();
    assert_eq!(roles, vec![Role::Open, Role::Continue, Role::Close]);
    assert_eq!(chunks[0].text, "first");
    assert!(chunks.iter().all(|c| c.is_section_start && c.prev_tail.is_none()));
}

#[test]
fn clean_assemble_cleaned_document() {
    let cleaned = vec![
        ("Intro".to_string(), "  Body one. ".to_string(), true),
        ("Intro".to_string(), "Body two.".to_string(), false),
        ("Methods".to_string(), "   ".to_string(), true),
    ];
    assert_eq!(
        assemble_cleaned(Some("  Welcome.  "), &cleaned),
        "Welcome.\n\n## Intro\n\nBody one.\n\nBody two."
    );
    assert_eq!(assemble_cleaned(Some("   "), &cleaned[1..2].to_vec()), "Body two.");
    assert_eq!(assemble_cleaned(None, &Vec::new()), "");
}

#[test]
fn clean_plan_chunks_snaps_window_to_characters() {
    // A paragraph of 3-byte characters with no sentence break: the
    // 25000-byte window ends inside a character and is snapped down.
    let para = "\u{20ac}".repeat(10000);
    let sections = vec![("Euro".to_string(), para.clone())];
    let chunks = plan_chunks(sections);
    assert_eq!(chunks.len(), 2);
    assert_eq!(chunks[0].text, "\u{20ac}".repeat(8333));
    assert_eq!(chunks[1].text, "\u{20ac}".repeat(1667));
    assert_eq!(format!("{}{}", chunks[0].text, chunks[1].text), para);
}

#[test]
fn clean_find_anchor_prefix_example() {
    assert_eq!(find_anchor("xx The quick brown fox jumps", "The quick brown fox leaps"), Some(3));
}

#[test]
fn clean_plan_chunks_pieces_fit_target() {
    let para = format!("{} ", "Sentence of words here.".repeat(400));
    let body = vec![para.clone(); 12].join("\n\n");
    let sections = vec![
        ("Long".to_string(), body),
        ("Short".to_string(), "tail".to_string()),
    ];
    let chunks = plan_chunks(sections);
    assert!(chunks.len() > 2);
    assert!(chunks.iter().all(|c| c.text.len() <= 25_000));
    assert!(chunks[0].is_section_start);
    assert!(chunks.iter().all(|c| c.title == "Long" || c.title == "Short"));
    assert_eq!(chunks.iter().filter(|c| c.is_section_start).count(), 2);
}

#[test]
fn clean_find_anchor_prefers_whole_anchor() {
    let hay = "The quick brown fox leaps. The quick brown fox jumps";
    assert_eq!(find_anchor(hay, "The quick brown fox jumps"), Some(27));
    assert_eq!(find_anchor(hay, "The quick brown fox sleeps"), Some(0));
    assert_eq!(rfind_anchor(hay, "The quick brown fox sleeps"), Some(27));
}
