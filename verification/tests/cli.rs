use tts_podcast::cli::{choose_extractor, detect_source_type, make_provider, stops_after, unknown_name_message, CliError, Extractor};
use tts_podcast::provider::Provider;

#[test]
fn cli_make_provider_by_name() {
    match make_provider("anthropic", Some("ak".into()), None) {
        Ok(Provider::Anthropic { api_key }) => assert_eq!(api_key, "ak"),
        _ => panic!("expected the Anthropic provider"),
    }
    match make_provider("gemini", None, Some("sk".into())) {
        Ok(Provider::Gemini { api_key, model }) => {
            assert_eq!(api_key, "sk");
            assert_eq!(model, "gemini-flash-latest");
        }
        _ => panic!("expected the Gemini provider"),
    }
    match make_provider("anthropic", None, Some("sk".into())) {
        Err(CliError::MissingKey(v)) => assert_eq!(v, "ANTHROPIC_API_KEY"),
        _ => panic!("expected a missing key"),
    }
    match make_provider("gemini", Some("ak".into()), None) {
        Err(CliError::MissingKey(v)) => assert_eq!(v, "GOOGLE_STUDIO_API_KEY"),
        _ => panic!("expected a missing key"),
    }
    match make_provider("openai", Some("ak".into()), Some("sk".into())) {
        Err(CliError::UnknownProvider(n)) => assert_eq!(n, "openai"),
        _ => panic!("expected an unknown provider"),
    }
}

#[test]
fn cli_choose_extractor_by_name() {
    assert!(matches!(choose_extractor("anthropic"), Ok(Extractor::Pages)));
    assert!(matches!(choose_extractor("gemini"), Ok(Extractor::Gemini)));
    match choose_extractor("tesseract") {
        Err(CliError::UnknownExtractor(n)) => assert_eq!(n, "tesseract"),
        _ => panic!("expected an unknown extractor"),
    }
    assert_eq!(
        unknown_name_message("extractor", "tesseract"),
        "Unknown extractor: tesseract (expected anthropic or gemini)"
    );
}

#[test]
fn cli_detect_source_type() {
    assert_eq!(detect_source_type("paper.pdf", false), "pdf");
    assert_eq!(detect_source_type("notes.txt", true), "pdf");
    assert_eq!(detect_source_type("https://arxiv.org/abs/2301.12345", false), "arxiv");
    assert_eq!(detect_source_type("https://ar5iv.org/html/2301.12345", false), "arxiv");
    assert_eq!(detect_source_type("https://example.com/post", false), "article");
}

#[test]
fn cli_stops_after_stage() {
    assert!(stops_after(Some("clean"), "clean"));
    assert!(!stops_after(Some("clean"), "extract"));
    assert!(!stops_after(None, "extract"));
}
