use tts_podcast::error::AppError;
use tts_podcast::provider::Provider;
use tts_podcast::server::config::{server_config_from_env, ServerEnv};
use tts_podcast::server::feeds::{
    apply_update, default_tts, feed_response, image_brief, require_admin, rss_url, validate_create,
    CreateFeedRequest, FeedRow, UpdateFeedRequest,
};
use tts_podcast::server::pipeline::{arxiv_pdf_url, final_pdf_title, pdf_path, scraped_title, uses_gemini_extractor};
use tts_podcast::server::worker::{
    complete_transition, fail_action, is_upstream_outage, retry_backoff, stage_status, FailAction,
    OUTAGE_DEFER_SECS,
};

fn s(v: &str) -> Option<String> {
    Some(v.to_string())
}

fn full_env() -> ServerEnv {
    ServerEnv {
        host: None,
        port: None,
        public_url: None,
        database_url: s("sqlite:///data/db.sqlite"),
        aws_access_key_id: s("AKID"),
        aws_secret_access_key: s("SECRET"),
        aws_endpoint_url_s3: s("https://fly.storage.tigris.dev"),
        aws_region: None,
        bucket_name: s("podcasts"),
        anthropic_api_key: s("ak"),
        google_tts_api_key: s("gk"),
        google_studio_api_key: s("sk"),
        admin_token: s("tok"),
        google_tts_voice: None,
        worker_poll_interval_secs: None,
        worker_count: None,
        max_job_attempts: None,
        generate_images: None,
        ai_provider: None,
        pdf_extractor: None,
    }
}

#[test]
fn server_config_defaults() {
    let c = match server_config_from_env(&full_env()) {
        Ok(c) => c,
        Err(e) => panic!("{}", e.message),
    };
    assert_eq!(c.host, "0.0.0.0");
    assert_eq!(c.port, 8080);
    assert_eq!(c.public_url, "http://0.0.0.0:8080");
    assert_eq!(c.aws_region, "auto");
    assert_eq!(c.google_tts_voice, "en-US-Journey-D");
    assert_eq!(c.worker_poll_interval, 5);
    assert_eq!(c.worker_count, 2);
    assert_eq!(c.max_job_attempts, 3);
    assert!(c.generate_images);
    assert_eq!(c.ai_provider, "anthropic");
    assert_eq!(c.pdf_extractor, "gemini");
    assert_eq!(c.bucket_name, "podcasts");
    match c.make_provider() {
        Provider::Anthropic { api_key } => assert_eq!(api_key, "ak"),
        _ => panic!("expected the Anthropic provider"),
    }
}

#[test]
fn server_config_overrides() {
    let mut e = full_env();
    e.host = s("127.0.0.1");
    e.port = s("+9000");
    e.max_job_attempts = s("-1");
    e.generate_images = s("0");
    e.ai_provider = s("gemini");
    let c = match server_config_from_env(&e) {
        Ok(c) => c,
        Err(e) => panic!("{}", e.message),
    };
    assert_eq!(c.port, 9000);
    assert_eq!(c.public_url, "http://127.0.0.1:9000");
    assert_eq!(c.max_job_attempts, -1);
    assert!(!c.generate_images);
    match c.make_provider() {
        Provider::Gemini { api_key, model } => {
            assert_eq!(api_key, "sk");
            assert_eq!(model, "gemini-flash-latest");
        }
        _ => panic!("expected the Gemini provider"),
    }
    e.generate_images = s("no");
    e.public_url = s("https://pods.example");
    let c = server_config_from_env(&e).ok().unwrap();
    assert!(c.generate_images);
    assert_eq!(c.public_url, "https://pods.example");
}

#[test]
fn server_config_first_error_wins() {
    let mut e = full_env();
    e.database_url = None;
    e.admin_token = None;
    assert_eq!(server_config_from_env(&e).err().unwrap().message, "DATABASE_URL environment variable is required");
    e.port = s("70000");
    assert_eq!(server_config_from_env(&e).err().unwrap().message, "PORT must be a valid u16");
    let mut e = full_env();
    e.admin_token = None;
    assert_eq!(server_config_from_env(&e).err().unwrap().message, "ADMIN_TOKEN environment variable is required");
    let mut e = full_env();
    e.worker_count = s("two");
    assert_eq!(server_config_from_env(&e).err().unwrap().message, "WORKER_COUNT must be a valid usize");
    let mut e = full_env();
    e.max_job_attempts = s("3000000000");
    assert_eq!(server_config_from_env(&e).err().unwrap().message, "MAX_JOB_ATTEMPTS must be a valid i32");
}

#[test]
fn server_worker_stage_status() {
    assert_eq!(stage_status("scrape"), Some("scraping"));
    assert_eq!(stage_status("pdf"), Some("scraping"));
    assert_eq!(stage_status("clean"), Some("cleaning"));
    assert_eq!(stage_status("summarize"), Some("summarizing"));
    assert_eq!(stage_status("tts"), Some("tts"));
    assert_eq!(stage_status("image"), None);
    assert_eq!(stage_status("other"), Some("error"));
}

#[test]
fn server_worker_transitions() {
    let t = complete_transition("pdf", 0, true);
    assert_eq!((t.next_job, t.episode_status, t.set_pub_date), (Some("clean"), Some("cleaning"), false));
    let t = complete_transition("clean", 1, true);
    assert_eq!((t.next_job, t.episode_status), (Some("summarize"), Some("summarizing")));
    let t = complete_transition("clean", 0, true);
    assert_eq!((t.next_job, t.episode_status), (Some("tts"), Some("tts")));
    let t = complete_transition("summarize", 0, false);
    assert_eq!((t.next_job, t.episode_status), (Some("tts"), Some("tts")));
    let t = complete_transition("tts", 0, true);
    assert_eq!((t.next_job, t.episode_status, t.set_pub_date), (Some("image"), Some("done"), true));
    let t = complete_transition("tts", 0, false);
    assert_eq!((t.next_job, t.episode_status, t.set_pub_date), (None, Some("done"), true));
    let t = complete_transition("image", 0, true);
    assert_eq!((t.next_job, t.episode_status, t.set_pub_date), (None, None, false));
}

#[test]
fn server_worker_outage_detection() {
    assert!(is_upstream_outage("Gemini API failed (503 Service Unavailable)"));
    assert!(is_upstream_outage("model is OVERLOADED"));
    assert!(is_upstream_outage("Service Unavailable"));
    assert!(!is_upstream_outage("400 Bad Request"));
}

#[test]
fn server_worker_failure_actions() {
    assert_eq!(retry_backoff(1), 120);
    assert_eq!(retry_backoff(2), 240);
    assert_eq!(retry_backoff(3), 480);
    assert_eq!(fail_action(5, "overloaded", 3, false), FailAction::Defer { secs: OUTAGE_DEFER_SECS });
    assert_eq!(OUTAGE_DEFER_SECS, 1800);
    assert_eq!(fail_action(0, "boom", 3, false), FailAction::Retry { attempts: 1, backoff_secs: 120 });
    assert_eq!(fail_action(1, "boom", 3, false), FailAction::Retry { attempts: 2, backoff_secs: 240 });
    assert_eq!(fail_action(2, "boom", 3, false), FailAction::GiveUp { attempts: 3, episode_error: true });
    assert_eq!(fail_action(2, "boom", 3, true), FailAction::GiveUp { attempts: 3, episode_error: false });
}

#[test]
fn server_feeds_admin_and_validation() {
    assert!(require_admin(Some("Bearer tok"), "tok").is_ok());
    assert!(matches!(require_admin(Some("Bearer nope"), "tok"), Err(AppError::Unauthorized)));
    assert!(matches!(require_admin(Some("tok"), "tok"), Err(AppError::Unauthorized)));
    assert!(matches!(require_admin(None, "tok"), Err(AppError::Unauthorized)));
    // An empty admin token accepts a missing header, as the comparison does.
    assert!(require_admin(None, "").is_ok());
    let mut req = CreateFeedRequest {
        slug: "s".into(),
        title: "t".into(),
        description: String::new(),
        tts_default: default_tts(),
    };
    assert_eq!(req.tts_default, "google");
    assert!(validate_create(&req).is_ok());
    req.tts_default = "openai".into();
    match validate_create(&req) {
        Err(AppError::BadRequest(m)) => assert_eq!(m, "tts_default must be 'google'"),
        _ => panic!("expected BadRequest"),
    }
}

fn row() -> FeedRow {
    FeedRow {
        id: "id1".into(),
        slug: "slug".into(),
        title: "Title".into(),
        description: "Desc".into(),
        feed_token: "ftok".into(),
        tts_default: "google".into(),
        created_at: "2026-01-01 00:00:00".into(),
        image_url: None,
    }
}

#[test]
fn server_feeds_responses() {
    assert_eq!(rss_url("https://p.example", "ftok"), "https://p.example/feed/ftok/rss.xml");
    let r = feed_response(row(), rss_url("https://p.example", "ftok"));
    assert_eq!(r.rss_url, "https://p.example/feed/ftok/rss.xml");
    assert_eq!((r.id.as_str(), r.slug.as_str(), r.title.as_str()), ("id1", "slug", "Title"));
    let u = apply_update(row(), UpdateFeedRequest { slug: None, title: Some("New".into()), description: None });
    assert_eq!((u.slug.as_str(), u.title.as_str(), u.description.as_str()), ("slug", "New", "Desc"));
    assert_eq!(image_brief("Title", "  "), "Title");
    assert_eq!(image_brief("Title", "About things"), "Title. About things");
}

#[test]
fn server_pipeline_paths_and_titles() {
    assert_eq!(pdf_path("ep9"), "/data/ep9.pdf");
    assert_eq!(arxiv_pdf_url("2301.12345"), "https://arxiv.org/pdf/2301.12345");
    assert_eq!(scraped_title(&Some("A Title".into()), "https://x.example"), "A Title");
    assert_eq!(scraped_title(&None, "https://x.example"), "https://x.example");
    assert_eq!(final_pdf_title("pdf", "My Upload", &Some("Extracted".into())), "My Upload");
    assert_eq!(final_pdf_title("pdf", "PDF Upload", &Some("Extracted".into())), "Extracted");
    assert_eq!(final_pdf_title("arxiv", "arXiv:1", &Some("Extracted".into())), "Extracted");
    assert_eq!(final_pdf_title("arxiv", "arXiv:1", &None), "Untitled PDF");
    assert!(uses_gemini_extractor("gemini"));
    assert!(!uses_gemini_extractor("anthropic"));
}
