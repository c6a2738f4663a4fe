//! Planning of a speech synthesis: the sections and chunks of the text,
//! where each section starts in the chunk sequence, the cache name of a
//! chunk, how the chunk audio is joined, and the chapter table of the
//! result.
use vstd::prelude::*;
use std::collections::hash_map::DefaultHasher;
use std::hash::Hasher;
use vstd::std_specs::hash::DefaultHasherAdditionalSpecFns;
use vstd::utf8::encode_utf8;
use id3::frame::{Chapter, Frame, TableOfContents};
use id3::{Tag, TagLike, Version};
use crate::text::{decimal, push_char, push_str, zero_pad};
use crate::tts::{build_chunks, build_chunks_spec, chunk_views, parse_sections, parse_sections_spec, section_views, Chunk, SectionText, MAX_CHUNK_CHARS};

verus! {

/// The sections a text is chunked by: its `## ` sections, or the whole
/// text as one untitled section when it has none.
pub open spec fn chunking_sections(t: Seq<char>) -> Seq<(Option<Seq<char>>, Seq<char>)> {
    let s = parse_sections_spec(t);
    if s.len() == 0 {
        seq![(None, t)]
    } else {
        s
    }
}

/// Whether some section of the text has a title (chapters are produced
/// only then).
pub open spec fn titled_sections(t: Seq<char>) -> bool {
    let s = parse_sections_spec(t);
    s.len() > 0 && exists|i: int| 0 <= i < s.len() && (#[trigger] s[i]).0 is Some
}

/// What a synthesis works through.
pub struct SynthesisPlan {
    pub sections: Vec<SectionText>,
    pub chunks: Vec<Chunk>,
    pub has_sections: bool,
}

/// Plans the synthesis of (lexicon-substituted) text: sections, chunks of
/// at most `MAX_CHUNK_CHARS` bytes, and whether there are chapters.
pub fn plan_synthesis(text: &str) -> (p: SynthesisPlan)
    ensures
        section_views(p.sections@) == chunking_sections(text@),
        chunk_views(p.chunks@) == build_chunks_spec(chunking_sections(text@), MAX_CHUNK_CHARS as int),
        p.has_sections == titled_sections(text@),
{
    let parsed = parse_sections(text);
    let mut has_sections = false;
    let mut i: usize = 0;
    while i < parsed.len()
        invariant
            i <= parsed@.len(),
            section_views(parsed@) == parse_sections_spec(text@),
            has_sections == exists|j: int| 0 <= j < i && (#[trigger] parsed@[j]).title is Some,
        decreases parsed@.len() - i,
    {
        if parsed[i].title.is_some() {
            has_sections = true;
        }
        i += 1;
    }
    proof {
        let s = parse_sections_spec(text@);
        assert(s.len() == parsed@.len());
        assert forall|j: int| 0 <= j < s.len() implies (s[j].0 is Some) == (parsed@[j].title is Some) by {
            assert(s[j] == parsed@[j]@);
        }
    }
    let sections = if parsed.len() == 0 {
        let mut one: Vec<SectionText> = Vec::new();
        one.push(SectionText { title: None, body: crate::text::owned(text) });
        proof {
            assert(section_views(one@) =~= seq![(None::<Seq<char>>, text@)]);
        }
        one
    } else {
        parsed
    };
    let chunks = build_chunks(&sections, MAX_CHUNK_CHARS);
    SynthesisPlan { sections, chunks, has_sections }
}

/// Chunk `i` starts a section: it is the first chunk, or its section
/// differs from the previous chunk's.
pub open spec fn starts_section(idxs: Seq<int>, i: int) -> bool {
    i == 0 || idxs[i] != idxs[i - 1]
}

/// The title a section gets in the timeline.
pub open spec fn timeline_title(title: Option<Seq<char>>) -> Seq<char> {
    match title {
        Some(t) => t,
        None => "Introduction"@,
    }
}

/// (first chunk, title) of each section in chunk order.
pub open spec fn timeline_starts(
    idxs: Seq<int>,
    secs: Seq<(Option<Seq<char>>, Seq<char>)>,
) -> Seq<(int, Seq<char>)>
    decreases idxs.len(),
{
    if idxs.len() == 0 {
        seq![]
    } else {
        let k = idxs.len() - 1;
        let prev = timeline_starts(idxs.drop_last(), secs);
        if starts_section(idxs, k) {
            prev.push((k, timeline_title(secs[idxs[k]].0)))
        } else {
            prev
        }
    }
}

/// Section indices of the chunks.
pub open spec fn chunk_section_idxs(cs: Seq<(Seq<char>, int, bool)>) -> Seq<int> {
    cs.map_values(|c: (Seq<char>, int, bool)| c.1)
}

/// Views of (chunk index, title) pairs.
pub open spec fn start_views(v: Seq<(usize, String)>) -> Seq<(int, Seq<char>)> {
    v.map_values(|x: (usize, String)| (x.0 as int, x.1@))
}

/// Where each section starts: the index of its first chunk and its title
/// ("Introduction" for the untitled preface). A section starts at time
/// zero plus the durations of the chunks before that index.
pub fn section_starts(sections: &Vec<SectionText>, chunks: &Vec<Chunk>) -> (r: Vec<(usize, String)>)
    requires
        forall|i: int| 0 <= i < chunks@.len() ==> (#[trigger] chunks@[i]).section_idx < sections@.len(),
    ensures
        start_views(r@) == timeline_starts(chunk_section_idxs(chunk_views(chunks@)), section_views(sections@)),
{
    let ghost idxs = chunk_section_idxs(chunk_views(chunks@));
    let ghost secs = section_views(sections@);
    let mut out: Vec<(usize, String)> = Vec::new();
    let mut i: usize = 0;
    proof {
        assert(idxs.take(0) =~= Seq::<int>::empty());
    }
    while i < chunks.len()
        invariant
            i <= chunks@.len(),
            idxs == chunk_section_idxs(chunk_views(chunks@)),
            secs == section_views(sections@),
            forall|j: int| 0 <= j < chunks@.len() ==> (#[trigger] chunks@[j]).section_idx < sections@.len(),
            start_views(out@) == timeline_starts(idxs.take(i as int), secs),
        decreases chunks@.len() - i,
    {
        proof {
            assert(idxs.take(i + 1).drop_last() =~= idxs.take(i as int));
            assert(idxs[i as int] == chunks@[i as int].section_idx);
            if i > 0 {
                assert(idxs[i - 1] == chunks@[i - 1].section_idx);
            }
            assert(starts_section(idxs.take(i + 1), i as int) == starts_section(idxs, i as int));
        }
        let idx = chunks[i].section_idx;
        if i == 0 || idx != chunks[i - 1].section_idx {
            let title = match &sections[idx].title {
                Some(t) => t.clone(),
                None => crate::text::owned("Introduction"),
            };
            proof {
                assert(secs[idx as int] == sections@[idx as int]@);
                assert(start_views(out@.push((i, title))) =~= start_views(out@).push((i as int, title@)));
            }
            out.push((i, title));
        }
        i += 1;
    }
    proof {
        assert(idxs.take(chunks@.len() as int) =~= idxs);
    }
    out
}

/// Lowercase hexadecimal digit of `d < 16`.
pub open spec fn hex_char(d: nat) -> char {
    if d < 10 {
        (48 + d) as char
    } else {
        (87 + d) as char
    }
}

/// The last `n` hexadecimal digits of `h`, most significant first.
pub open spec fn hex_digits(h: nat, n: nat) -> Seq<char>
    decreases n,
{
    if n == 0 {
        seq![]
    } else {
        hex_digits(h / 16, (n - 1) as nat).push(hex_char(h % 16))
    }
}

fn hex_exec(d: u64) -> (c: char)
    requires
        d < 16,
    ensures
        c == hex_char(d as nat),
{
    match d {
        0 => '0',
        1 => '1',
        2 => '2',
        3 => '3',
        4 => '4',
        5 => '5',
        6 => '6',
        7 => '7',
        8 => '8',
        9 => '9',
        10 => 'a',
        11 => 'b',
        12 => 'c',
        13 => 'd',
        14 => 'e',
        _ => 'f',
    }
}

/// Appends the last `n` hexadecimal digits of `h`.
pub(crate) fn push_hex(out: &mut String, h: u64, n: u32)
    ensures
        final(out)@ == old(out)@ + hex_digits(h as nat, n as nat),
    decreases n,
{
    if n > 0 {
        push_hex(out, h / 16, n - 1);
        push_char(out, hex_exec(h % 16));
        proof {
            assert(old(out)@ + hex_digits(h as nat, n as nat) =~= old(out)@ + hex_digits(
                (h / 16) as nat,
                (n - 1) as nat,
            ) + seq![hex_char((h % 16) as nat)]);
        }
    } else {
        proof {
            assert(old(out)@ + hex_digits(h as nat, 0) =~= old(out)@);
        }
    }
}

/// `format!("chunk-{index:04}-{hash:016x}.mp3")`.
pub open spec fn cache_name(index: nat, hash: nat) -> Seq<char> {
    "chunk-"@ + zero_pad(decimal(index), 4) + seq!['-'] + hex_digits(hash, 16) + ".mp3"@
}

/// The cache file name of chunk `index` with content hash `hash`.
pub fn cache_file_name(index: usize, hash: u64) -> (r: String)
    ensures
        r@ == cache_name(index as nat, hash as nat),
{
    let mut s = String::new();
    push_str(&mut s, "chunk-");
    crate::text::push_zero_padded(&mut s, index as u64, 4);
    push_char(&mut s, '-');
    push_hex(&mut s, hash, 16);
    push_str(&mut s, ".mp3");
    proof {
        assert(s@ =~= cache_name(index as nat, hash as nat));
    }
    s
}

/// The writes a `DefaultHasher` receives when the voice and then the text
/// are hashed: `Hash for str` writes a string's bytes and then the byte
/// 0xff.
pub open spec fn hashed_writes(voice: Seq<char>, text: Seq<char>) -> Seq<Seq<u8>> {
    seq![encode_utf8(voice), seq![0xffu8], encode_utf8(text), seq![0xffu8]]
}

/// Hashes the voice and then the text with `DefaultHasher::new()`, writing
/// each string as `Hash for str` does, then `finish`.
pub(crate) fn content_hash(voice: &str, text: &str) -> (h: u64)
    ensures
        h == DefaultHasher::spec_finish(hashed_writes(voice@, text@)),
{
    let mut ff: Vec<u8> = Vec::new();
    ff.push(0xffu8);
    let mut hasher = DefaultHasher::new();
    hasher.write(voice.as_bytes());
    hasher.write(ff.as_slice());
    hasher.write(text.as_bytes());
    hasher.write(ff.as_slice());
    proof {
        assert(hasher@ =~= hashed_writes(voice@, text@));
    }
    hasher.finish()
}

/// Cache file name for a chunk, keyed by index and by a hash of the voice
/// and the text, so that edits do not reuse stale audio.
pub fn chunk_cache_filename(index: usize, text: &str, voice: &str) -> (r: String)
    ensures
        r@ == cache_name(index as nat, DefaultHasher::spec_finish(hashed_writes(voice@, text@)) as nat),
{
    let h = content_hash(voice, text);
    cache_file_name(index, h)
}

/// The audio of the chunks in order, each followed by the silence when it
/// ends a section that is not the last.
pub open spec fn joined_audio(parts: Seq<Seq<u8>>, pauses: Seq<bool>, silence: Seq<u8>) -> Seq<u8>
    decreases parts.len(),
{
    if parts.len() == 0 {
        seq![]
    } else {
        let k = parts.len() - 1;
        joined_audio(parts.drop_last(), pauses, silence) + parts[k] + if pauses[k] {
            silence
        } else {
            seq![]
        }
    }
}

/// Views of byte buffers.
pub open spec fn byte_views(v: Seq<Vec<u8>>) -> Seq<Seq<u8>> {
    v.map_values(|b: Vec<u8>| b@)
}

/// Joins the audio of the chunks (in chunk order), with the section pause
/// after each chunk that ends a section.
pub fn join_audio(parts: &Vec<Vec<u8>>, pauses: &Vec<bool>, silence: &[u8]) -> (r: Vec<u8>)
    requires
        pauses@.len() == parts@.len(),
    ensures
        r@ == joined_audio(byte_views(parts@), pauses@, silence@),
{
    let ghost bv = byte_views(parts@);
    let mut out: Vec<u8> = Vec::new();
    let mut k: usize = 0;
    proof {
        assert(bv.take(0) =~= Seq::<Seq<u8>>::empty());
    }
    while k < parts.len()
        invariant
            k <= parts@.len() == pauses@.len(),
            bv == byte_views(parts@),
            out@ == joined_audio(bv.take(k as int), pauses@, silence@),
        decreases parts@.len() - k,
    {
        proof {
            assert(bv.take(k + 1).drop_last() =~= bv.take(k as int));
            assert(bv.take(k + 1)[k as int] == parts@[k as int]@);
        }
        let ghost before = out@;
        let part = &parts[k];
        let mut j: usize = 0;
        while j < part.len()
            invariant
                j <= part@.len(),
                out@ == before + part@.take(j as int),
            decreases part@.len() - j,
        {
            proof {
                assert(part@.take(j + 1) =~= part@.take(j as int).push(part@[j as int]));
            }
            out.push(part[j]);
            j += 1;
        }
        proof {
            assert(part@.take(part@.len() as int) =~= part@);
        }
        if pauses[k] {
            let ghost mid = out@;
            let mut j: usize = 0;
            while j < silence.len()
                invariant
                    j <= silence@.len(),
                    out@ == mid + silence@.take(j as int),
                decreases silence@.len() - j,
            {
                proof {
                    assert(silence@.take(j + 1) =~= silence@.take(j as int).push(silence@[j as int]));
                }
                out.push(silence[j]);
                j += 1;
            }
            proof {
                assert(silence@.take(silence@.len() as int) =~= silence@);
            }
        }
        proof {
            assert(out@ =~= joined_audio(bv.take(k + 1), pauses@, silence@));
        }
        k += 1;
    }
    proof {
        assert(bv.take(parts@.len() as int) =~= bv);
    }
    out
}

/// A chapter of the ID3 table: element id, start and end in milliseconds.
pub struct ChapterEntry {
    pub element_id: String,
    pub start_ms: u32,
    pub end_ms: u32,
}

/// Chapter `i` of `n` with the given starts: it ends where the next one
/// starts (the last one at the end of the audio), never before it starts.
pub open spec fn chapter_end(starts: Seq<u32>, i: int, total_ms: u32) -> u32 {
    let e = if i + 1 < starts.len() {
        starts[i + 1]
    } else {
        total_ms
    };
    if e < starts[i] {
        starts[i]
    } else {
        e
    }
}

/// The total duration in milliseconds, saturating.
pub open spec fn total_ms_of(total_secs: u32) -> u32 {
    if total_secs * 1000 > u32::MAX {
        u32::MAX
    } else {
        (total_secs * 1000) as u32
    }
}

/// The chapter table of the ID3 tag: chapter `i` is `ch{i}`, from its
/// start to the next start (the last to the end of the audio).
pub fn chapter_table(starts_ms: &Vec<u32>, total_duration_secs: u32) -> (r: Vec<ChapterEntry>)
    ensures
        r@.len() == starts_ms@.len(),
        forall|i: int| 0 <= i < r@.len() ==> {
            &&& (#[trigger] r@[i]).element_id@ == "ch"@ + decimal(i as nat)
            &&& r@[i].start_ms == starts_ms@[i]
            &&& r@[i].end_ms == chapter_end(starts_ms@, i, total_ms_of(total_duration_secs))
        },
{
    let total_ms: u32 = if total_duration_secs > u32::MAX / 1000 {
        u32::MAX
    } else {
        total_duration_secs * 1000
    };
    let n = starts_ms.len();
    let mut out: Vec<ChapterEntry> = Vec::new();
    let mut i: usize = 0;
    while i < n
        invariant
            i <= n == starts_ms@.len(),
            total_ms == total_ms_of(total_duration_secs),
            out@.len() == i,
            forall|j: int| 0 <= j < i ==> {
                &&& (#[trigger] out@[j]).element_id@ == "ch"@ + decimal(j as nat)
                &&& out@[j].start_ms == starts_ms@[j]
                &&& out@[j].end_ms == chapter_end(starts_ms@, j, total_ms)
            },
        decreases n - i,
    {
        let start = starts_ms[i];
        let next = if i + 1 < n {
            starts_ms[i + 1]
        } else {
            total_ms
        };
        let end = if next < start {
            start
        } else {
            next
        };
        let mut id = String::new();
        push_str(&mut id, "ch");
        crate::text::push_decimal(&mut id, i as u64);
        proof {
            assert(id@ =~= "ch"@ + decimal(i as nat));
        }
        out.push(ChapterEntry { element_id: id, start_ms: start, end_ms: end });
        i += 1;
    }
    out
}

/// The bytes of the ID3v2.3 tag that `id3` writes for these chapters
/// (element id, start ms, end ms, title), each a CHAP frame with a TIT2
/// title, followed by a top-level ordered CTOC frame "toc" listing them;
/// `None` when the encoder fails.
pub uninterp spec fn id3_chapter_tag_of(chapters: Seq<(Seq<char>, u32, u32, Seq<char>)>) -> Option<Seq<u8>>;

/// The chapters of a table with their titles, as plain values.
pub open spec fn chapter_tuples(entries: Seq<ChapterEntry>, titles: Seq<String>) -> Seq<(Seq<char>, u32, u32, Seq<char>)> {
    Seq::new(entries.len(), |i: int| (entries[i].element_id@, entries[i].start_ms, entries[i].end_ms, titles[i]@))
}

/// Builds an `id3::Tag` (`Tag::new`), adds one `Chapter` frame per entry
/// (start and end offsets unknown, a `TIT2` text frame with the title)
/// and a `TableOfContents` "toc" (top level, ordered) naming the chapters
/// (`TagLike::add_frame`), and writes it with
/// `Tag::write_to(.., Version::Id3v23)`. The contract names the bytes.
#[verifier::external_body]
pub(crate) fn id3_chapter_tag(entries: &Vec<ChapterEntry>, titles: &Vec<String>) -> (r: Option<Vec<u8>>)
    requires
        entries@.len() == titles@.len(),
    ensures
        match r {
            Some(v) => id3_chapter_tag_of(chapter_tuples(entries@, titles@)) == Some(v@),
            None => id3_chapter_tag_of(chapter_tuples(entries@, titles@)) is None,
        },
{
    let mut tag = Tag::new();
    for (e, t) in entries.iter().zip(titles) {
        let frames = vec![Frame::text("TIT2", t.clone())];
        tag.add_frame(Chapter { element_id: e.element_id.clone(), start_time: e.start_ms, end_time: e.end_ms, start_offset: u32::MAX, end_offset: u32::MAX, frames });
    }
    let elements = entries.iter().map(|e| e.element_id.clone()).collect();
    tag.add_frame(TableOfContents { element_id: "toc".into(), top_level: true, ordered: true, elements, frames: vec![] });
    let mut buf = Vec::new();
    tag.write_to(&mut buf, Version::Id3v23).ok()?;
    Some(buf)
}

/// The message when the chapter tag cannot be written.
pub const CHAPTER_TAG_ERROR: &'static str = "Failed to write ID3v2 chapter tag";

/// The chapters of `embed_chapters`, as plain values: chapter `i` is
/// `ch{i}`, from its start to the next start (the last to the end of the
/// audio), with its title.
pub open spec fn chapter_specs(starts: Seq<u32>, titles: Seq<Seq<char>>, total_secs: u32) -> Seq<(Seq<char>, u32, u32, Seq<char>)> {
    Seq::new(
        starts.len(),
        |i: int| ("ch"@ + decimal(i as nat), starts[i], chapter_end(starts, i, total_ms_of(total_secs)), titles[i]),
    )
}

/// Prepends an ID3v2.3 tag with a chapter per section (CHAP frames and a
/// CTOC table of contents) to the audio, so podcast apps show the
/// chapters; audio without chapters is returned as it is.
pub fn embed_chapters(audio: &[u8], starts_ms: &Vec<u32>, titles: &Vec<String>, total_duration_secs: u32) -> (r: Result<Vec<u8>, String>)
    requires
        starts_ms@.len() == titles@.len(),
    ensures
        starts_ms@.len() == 0 ==> (r matches Ok(v) && v@ == audio@),
        starts_ms@.len() > 0 ==> match id3_chapter_tag_of(
            chapter_specs(starts_ms@, titles@.map_values(|t: String| t@), total_duration_secs),
        ) {
            Some(tag) => r matches Ok(v) && v@ == tag + audio@,
            None => r matches Err(m) && m@ == CHAPTER_TAG_ERROR@,
        },
{
    if starts_ms.len() == 0 {
        return Ok(audio_vec(audio));
    }
    let table = chapter_table(starts_ms, total_duration_secs);
    proof {
        assert(chapter_tuples(table@, titles@) =~= chapter_specs(
            starts_ms@,
            titles@.map_values(|t: String| t@),
            total_duration_secs,
        ));
    }
    match id3_chapter_tag(&table, titles) {
        Some(tag) => {
            let mut out = tag;
            let ghost t0 = out@;
            let mut i: usize = 0;
            while i < audio.len()
                invariant
                    i <= audio@.len(),
                    out@ == t0 + audio@.take(i as int),
                decreases audio@.len() - i,
            {
                proof {
                    assert(audio@.take(i + 1) =~= audio@.take(i as int).push(audio@[i as int]));
                }
                out.push(audio[i]);
                i += 1;
            }
            proof {
                assert(audio@.take(audio@.len() as int) =~= audio@);
            }
            Ok(out)
        },
        None => Err(crate::text::owned(CHAPTER_TAG_ERROR)),
    }
}

/// A copy of the audio bytes.
fn audio_vec(audio: &[u8]) -> (r: Vec<u8>)
    ensures
        r@ == audio@,
{
    let mut out: Vec<u8> = Vec::new();
    let mut i: usize = 0;
    while i < audio.len()
        invariant
            i <= audio@.len(),
            out@ == audio@.take(i as int),
        decreases audio@.len() - i,
    {
        proof {
            assert(audio@.take(i + 1) =~= audio@.take(i as int).push(audio@[i as int]));
        }
        out.push(audio[i]);
        i += 1;
    }
    proof {
        assert(audio@.take(audio@.len() as int) =~= audio@);
    }
    out
}

} // verus!
