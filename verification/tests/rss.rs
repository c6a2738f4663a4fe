use tts_podcast::server::rss::{
    format_rfc2822, format_timestamp, render_chapters, render_feed, xml_escape, ChapterMark,
    FeedInfo, RssEpisode,
};

#[test]
fn test_xml_escape_ampersand() {
    assert_eq!(xml_escape("A & B"), "A &amp; B");
}

#[test]
fn test_xml_escape_angle_brackets() {
    assert_eq!(xml_escape("<tag>"), "&lt;tag&gt;");
}

#[test]
fn test_xml_escape_quotes() {
    assert_eq!(xml_escape(r#"say "hello""#), "say &quot;hello&quot;");
}

#[test]
fn test_xml_escape_apostrophe() {
    assert_eq!(xml_escape("it's"), "it&apos;s");
}

#[test]
fn test_xml_escape_all_special() {
    assert_eq!(
        xml_escape(r#"<a href="x">&'y'"#),
        "&lt;a href=&quot;x&quot;&gt;&amp;&apos;y&apos;"
    );
}

#[test]
fn test_xml_escape_no_special() {
    assert_eq!(xml_escape("plain text"), "plain text");
}

#[test]
fn test_xml_escape_empty() {
    assert_eq!(xml_escape(""), "");
}

#[test]
fn test_format_rfc2822_sqlite() {
    assert_eq!(
        format_rfc2822("2026-04-14 14:59:47").as_deref(),
        Some("Tue, 14 Apr 2026 14:59:47 +0000"),
    );
}

#[test]
fn test_format_rfc2822_invalid() {
    assert_eq!(format_rfc2822("not a date"), None);
    assert_eq!(format_rfc2822(""), None);
}

#[test]
fn rss_format_timestamp_with_and_without_hours() {
    assert_eq!(format_timestamp(3725, true), "1:02:05");
    assert_eq!(format_timestamp(65, false), "1:05");
    assert_eq!(format_timestamp(5, true), "0:00:05");
}

#[test]
fn rss_render_chapters_uses_hours_from_last_chapter() {
    let marks = vec![
        ChapterMark { start_secs: 0, title: "Intro".to_string() },
        ChapterMark { start_secs: 3600, title: "Late".to_string() },
    ];
    assert_eq!(
        render_chapters(&Some(marks)),
        Some("0:00:00 Intro\n1:00:00 Late\n".to_string())
    );
    assert_eq!(render_chapters(&Some(Vec::new())), None);
    assert_eq!(render_chapters(&None), None);
}

#[test]
fn rss_render_feed_item() {
    let feed = FeedInfo {
        id: "f1".to_string(),
        title: "My & Feed".to_string(),
        description: "Desc".to_string(),
        feed_token: "tok".to_string(),
        image_url: None,
    };
    let ep = RssEpisode {
        id: "e1".to_string(),
        title: "Ep <1>".to_string(),
        source_url: Some("https://x.org/a".to_string()),
        audio_url: Some("https://cdn/a.mp3".to_string()),
        image_url: None,
        duration_secs: Some(61),
        pub_date: Some("2026-04-14 14:59:47".to_string()),
        audio_bytes: Some(1234),
        description: Some("About it".to_string()),
        chapters: None,
    };
    let xml = render_feed("https://pod.example", &feed, &vec![ep]);
    assert!(xml.starts_with("<?xml version=\"1.0\" encoding=\"UTF-8\"?>\n"));
    assert!(xml.contains("<title>My &amp; Feed</title>"));
    assert!(xml.contains("<link>https://pod.example/feeds/tok</link>"));
    assert!(xml.contains("<atom:link href=\"https://pod.example/feed/tok/rss.xml\""));
    assert!(xml.contains("<title>Ep &lt;1&gt;</title>"));
    assert!(xml.contains("<pubDate>Tue, 14 Apr 2026 14:59:47 +0000</pubDate>"));
    assert!(xml.contains("<description>About it\n\nSource: https://x.org/a</description>"));
    assert!(xml.contains("length=\"1234\""));
    assert!(xml.contains("<itunes:duration>61</itunes:duration>"));
    assert!(xml.ends_with("    </item>\n  </channel>\n</rss>"));
}
