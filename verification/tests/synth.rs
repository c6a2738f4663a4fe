use id3::Tag;
use tts_podcast::synth::{
    cache_file_name, embed_chapters, chapter_table, chunk_cache_filename, join_audio, plan_synthesis, section_starts,
};
use tts_podcast::tts::{build_chunks, SectionText};

#[test]
fn synth_cache_file_name_format() {
    assert_eq!(cache_file_name(7, 0xabc), "chunk-0007-0000000000000abc.mp3");
    assert_eq!(cache_file_name(12345, u64::MAX), "chunk-12345-ffffffffffffffff.mp3");
    assert_eq!(cache_file_name(0, 0), "chunk-0000-0000000000000000.mp3");
}

#[test]
fn synth_chunk_cache_filename_keyed_by_content() {
    let a = chunk_cache_filename(3, "Some text.", "en-US-Journey-D");
    assert!(a.starts_with("chunk-0003-") && a.ends_with(".mp3"));
    assert_eq!(a.len(), 31);
    assert!(a["chunk-0003-".len()..a.len() - 4].chars().all(|c| c.is_ascii_hexdigit()));
    assert_eq!(a, chunk_cache_filename(3, "Some text.", "en-US-Journey-D"));
    assert_ne!(a, chunk_cache_filename(3, "Some other text.", "en-US-Journey-D"));
}

#[test]
fn synth_join_audio_pauses_after_section_ends() {
    let parts = vec![vec![1u8, 2], vec![3u8], vec![4u8]];
    let out = join_audio(&parts, &vec![true, false, false], &[9u8, 9]);
    assert_eq!(out, vec![1, 2, 9, 9, 3, 4]);
    assert_eq!(join_audio(&parts, &vec![false, false, false], &[9u8]), vec![1, 2, 3, 4]);
    assert!(join_audio(&Vec::new(), &Vec::new(), &[9u8]).is_empty());
}

#[test]
fn synth_chapter_table_round_trip_times() {
    let table = chapter_table(&vec![0, 12_500, 42_000], 60);
    assert_eq!(table.len(), 3);
    let ids: Vec<&str> = table.iter().map(|e| e.element_id.as_str()).collect();
    assert_eq!(ids, vec!["ch0", "ch1", "ch2"]);
    assert_eq!((table[0].start_ms, table[0].end_ms), (0, 12_500));
    assert_eq!((table[1].start_ms, table[1].end_ms), (12_500, 42_000));
    assert_eq!((table[2].start_ms, table[2].end_ms), (42_000, 60_000));
    // A chapter never ends before it starts.
    let odd = chapter_table(&vec![5_000, 3_000], 1);
    assert_eq!((odd[0].start_ms, odd[0].end_ms), (5_000, 5_000));
    assert_eq!((odd[1].start_ms, odd[1].end_ms), (3_000, 3_000));
    assert_eq!(chapter_table(&vec![0], u32::MAX)[0].end_ms, u32::MAX);
}

#[test]
fn synth_section_starts_first_chunk_of_each_section() {
    let sections = vec![
        SectionText { title: Some("A".into()), body: "x".into() },
        SectionText { title: Some("B".into()), body: "y".into() },
    ];
    let chunks = build_chunks(&sections, 1000);
    let starts = section_starts(&sections, &chunks);
    assert_eq!(starts, vec![(0, "A".to_string()), (1, "B".to_string())]);

    let untitled = vec![
        SectionText { title: None, body: "Preamble.".into() },
        SectionText { title: Some("Next".into()), body: "Body.".into() },
    ];
    let chunks = build_chunks(&untitled, 1000);
    assert_eq!(section_starts(&untitled, &chunks), vec![(0, "Introduction".to_string()), (1, "Next".to_string())]);
}

#[test]
fn synth_plan_sections_and_chunks() {
    let plan = plan_synthesis("## A\n\nFirst.\n\n## B\n\nSecond.");
    assert!(plan.has_sections);
    assert_eq!(plan.sections.len(), 2);
    assert_eq!(plan.chunks.len(), 2);
    assert_eq!(plan.chunks[0].section_idx, 0);
    assert!(plan.chunks[0].append_pause);
    assert_eq!(plan.chunks[1].section_idx, 1);
    assert!(!plan.chunks[1].append_pause);

    let flat = plan_synthesis("No headers here. Just text.");
    assert!(!flat.has_sections);
    assert_eq!(flat.sections.len(), 1);
    assert_eq!(flat.sections[0].title, None);
    assert_eq!(flat.sections[0].body, "No headers here. Just text.");
    assert_eq!(flat.chunks.len(), 1);
    assert!(!flat.chunks[0].append_pause);
}

#[test]
fn test_embed_chapters_round_trip() {
    let audio = b"\xff\xfb\x90\x00fake-mp3-frames";
    // Sections "Intro" at 0 s, "Middle" at 12.5 s, "Outro" at 42 s.
    let starts = vec![0u32, 12_500, 42_000];
    let titles = vec!["Intro".to_string(), "Middle".to_string(), "Outro".to_string()];
    let out = embed_chapters(audio, &starts, &titles, 60).unwrap();
    assert_eq!(&out[..3], b"ID3", "must start with ID3v2 magic");
    assert!(out.ends_with(audio));
    let tag = Tag::read_from2(&mut std::io::Cursor::new(&out[..])).unwrap();
    let chaps: Vec<&id3::frame::Chapter> = tag.chapters().collect();
    assert_eq!(chaps.len(), 3);
    assert_eq!(chaps[0].start_time, 0);
    assert_eq!(chaps[0].end_time, 12_500);
    assert_eq!(chaps[1].start_time, 12_500);
    assert_eq!(chaps[1].end_time, 42_000);
    assert_eq!(chaps[2].start_time, 42_000);
    assert_eq!(chaps[2].end_time, 60_000);
    assert_eq!(chaps[1].element_id, "ch1");
    assert_eq!(chaps[1].frames[0].content().text(), Some("Middle"));
    let tocs: Vec<&id3::frame::TableOfContents> = tag.tables_of_contents().collect();
    assert_eq!(tocs.len(), 1);
    assert_eq!(tocs[0].elements, vec!["ch0", "ch1", "ch2"]);
}

#[test]
fn test_embed_chapters_empty_passes_through() {
    let audio = b"\xff\xfb\x90\x00fake";
    let out = embed_chapters(audio, &Vec::new(), &Vec::new(), 10).unwrap();
    assert_eq!(&out[..], audio);
}
