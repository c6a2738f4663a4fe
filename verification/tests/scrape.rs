use tts_podcast::scrape::{
    choose_arxiv_title, collapse_blank_lines, content_too_short, extract_arxiv_id, extract_latexml,
    is_pdf_response, parse_arxiv_title, render_latexml, url_looks_like_pdf, HtmlEvent,
};
use tts_podcast::text::normalize_whitespace;

#[test]
fn scrape_test_extract_arxiv_id_standard() {
    assert_eq!(extract_arxiv_id("https://arxiv.org/abs/2301.12345"), Some("2301.12345".into()));
}

#[test]
fn scrape_test_extract_arxiv_id_ar5iv() {
    assert_eq!(extract_arxiv_id("https://ar5iv.org/abs/2301.12345"), Some("2301.12345".into()));
}

#[test]
fn test_extract_arxiv_id_none() {
    assert_eq!(extract_arxiv_id("https://example.com"), None);
}

#[test]
fn test_parse_arxiv_title_valid() {
    let xml = r#"<?xml version="1.0"?>
<feed><entry><title>Attention Is All You Need</title></entry></feed>"#;
    assert_eq!(
        parse_arxiv_title(xml),
        Some("Attention Is All You Need".into())
    );
}

#[test]
fn scrape_parse_arxiv_title_joins_lines_and_needs_an_entry() {
    let xml = "<feed><title>Feed</title><entry><title>\n  Deep\nLearning  </title></entry></feed>";
    assert_eq!(parse_arxiv_title(xml), Some("Deep Learning".to_string()));
    assert_eq!(parse_arxiv_title("<feed><title>No entry</title></feed>"), None);
    assert_eq!(parse_arxiv_title("<entry><title>Unclosed"), None);
}

#[test]
fn scrape_url_looks_like_pdf() {
    assert!(url_looks_like_pdf("https://x.org/paper.PDF?download=1"));
    assert!(url_looks_like_pdf("https://x.org/a.pdf#page=2"));
    assert!(!url_looks_like_pdf("https://x.org/a.pdf.html"));
    assert!(!url_looks_like_pdf("https://x.org/view?file=a.pdf"));
}

#[test]
fn scrape_pdf_response_by_content_type() {
    assert!(is_pdf_response("https://x.org/view", Some("  Application/PDF; charset=binary")));
    assert!(!is_pdf_response("https://x.org/view", Some("text/html")));
    assert!(!is_pdf_response("https://x.org/view", None));
}

#[test]
fn scrape_collapse_blank_lines() {
    assert_eq!(collapse_blank_lines("a  \n\n\n\nb\t\n\n"), "a\n\nb");
    assert_eq!(collapse_blank_lines("\n\n  x\r\n"), "x");
    assert_eq!(collapse_blank_lines(""), "");
}

#[test]
fn scrape_normalize_whitespace() {
    assert_eq!(normalize_whitespace("  Attention \n Is\tAll  "), "Attention Is All");
}

#[test]
fn scrape_arxiv_title_choice() {
    assert_eq!(choose_arxiv_title(Some("API".into()), "Html".into(), "1234"), "API");
    assert_eq!(choose_arxiv_title(None, "Html".into(), "1234"), "Html");
    assert_eq!(choose_arxiv_title(None, String::new(), "1234"), "arXiv:1234");
}

#[test]
fn scrape_render_latexml_events() {
    let open = |name: &str, class: Option<&str>, alt: Option<&str>| HtmlEvent::Open {
        name: name.to_string(),
        class: class.map(|s| s.to_string()),
        alttext: alt.map(|s| s.to_string()),
    };
    let text = |t: &str| vec![HtmlEvent::Text(t.to_string()), HtmlEvent::Close];
    let mut events = vec![open("article", Some("ltx_document"), None), open("p", None, None)];
    events.extend(text("Energy is "));
    events.push(open("math", None, Some("E = mc^2")));
    events.extend(text("ignored"));
    events.push(HtmlEvent::Close);
    events.extend(text(" here."));
    events.push(HtmlEvent::Close);
    events.push(open("cite", None, None));
    events.extend(text("a"));
    events.push(open("x", None, None));
    events.extend(text("c"));
    events.push(HtmlEvent::Close);
    events.push(HtmlEvent::Close);
    events.push(open("section", None, None));
    events.extend(text("  Next   part "));
    events.push(HtmlEvent::Close);
    events.push(HtmlEvent::Close);
    let text = render_latexml(&events);
    assert_eq!(text, "Energy is E = mc^2 here.\n\nNext part\n\n");
    assert_eq!(collapse_blank_lines(&text), "Energy is E = mc^2 here.\n\nNext part");
}

#[test]
fn scrape_extract_latexml_from_html() {
    let html = r#"<html><body><h1 class="ltx_title ltx_title_document">Attention
 Is All</h1><article class="ltx_document"><div class="ltx_para"><p>First para.</p></div><section class="ltx_bibliography"><p>Refs</p></section></article></body></html>"#;
    let (title, text) = extract_latexml(html).expect("latexml");
    assert_eq!(title, "Attention Is All");
    assert_eq!(text, "First para.");
    assert!(extract_latexml("<html><body><p>plain</p></body></html>").is_none());
    let cited = r#"<html><body><article class="ltx_document"><p>Keep <cite>a<span>c</span></cite> this.</p><figure><p>Fig text</p></figure><p>After <math alttext="x^2">x</math> end.</p></article></body></html>"#;
    let (_, text) = extract_latexml(cited).expect("latexml");
    assert_eq!(text, "Keep this.\n\nAfter x^2 end.");
}

#[test]
fn scrape_short_content() {
    assert!(content_too_short("   short   "));
    assert!(!content_too_short(&"x".repeat(500)));
}

#[test]
fn scrape_extract_readable_article() {
    let para = "This is the first paragraph of a long article, with enough words, commas, and sentences to be scored as content. ";
    let html = format!(
        "<html><head><title>My Article</title></head><body><div><p>{}</p><p>{}</p></div></body></html>",
        para.repeat(3),
        para.repeat(3)
    );
    match tts_podcast::scrape::extract_readable(&html, "https://example.com/post") {
        Ok((title, text)) => {
            assert_eq!(title, "My Article");
            assert!(text.contains("first paragraph of a long article"));
        }
        Err(_) => panic!("readable extraction should succeed"),
    }
    let untitled = format!("<html><body><div><p>{}</p></div></body></html>", para.repeat(3));
    match tts_podcast::scrape::extract_readable(&untitled, "https://example.com/untitled") {
        Ok((title, _)) => assert_eq!(title, "https://example.com/untitled"),
        Err(_) => panic!("readable extraction should succeed"),
    }
    assert!(matches!(
        tts_podcast::scrape::extract_readable(&html, "not a url"),
        Err(tts_podcast::scrape::ReadableError::InvalidUrl)
    ));
}

#[test]
fn scrape_collapse_never_leaves_blank_runs() {
    let out = tts_podcast::scrape::collapse_blank_lines("a  \n\n\n\n  \nb\r\n\r\n\r\nc\n");
    assert!(!out.contains("\n\n\n"));
    assert_eq!(out, "a\n\nb\n\nc");
}
