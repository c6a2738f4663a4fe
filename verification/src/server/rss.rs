//! The podcast RSS feed: the XML of a feed and its episodes.
use vstd::prelude::*;
use crate::document::opt_view;
use crate::text::{
    contains, decimal, owned, pad2, push_decimal, push_pad2, push_signed_decimal, push_str,
    signed_decimal, str_contains,
};
use crate::tts::xml_escape_spec;
pub use crate::tts::xml_escape;

verus! {

/// A chapter of an episode: where it starts, in whole seconds, and its
/// title.
pub struct ChapterMark {
    pub start_secs: u64,
    pub title: String,
}

/// The feed a document is published in.
pub struct FeedInfo {
    pub id: String,
    pub title: String,
    pub description: String,
    pub feed_token: String,
    pub image_url: Option<String>,
}

/// A finished episode as the feed lists it.
pub struct RssEpisode {
    pub id: String,
    pub title: String,
    pub source_url: Option<String>,
    pub audio_url: Option<String>,
    pub image_url: Option<String>,
    pub duration_secs: Option<i32>,
    /// Publication time as stored, `YYYY-MM-DD HH:MM:SS` (UTC).
    pub pub_date: Option<String>,
    pub audio_bytes: Option<i64>,
    pub description: Option<String>,
    /// Chapters read from the stored sections; `None` when they are absent
    /// or malformed.
    pub chapters: Option<Vec<ChapterMark>>,
}

/// The RFC 2822 form of a stored `YYYY-MM-DD HH:MM:SS` UTC timestamp, as
/// the `time` crate computes it; `None` when it does not parse.
pub uninterp spec fn rfc2822_of(s: Seq<char>) -> Option<Seq<char>>;

/// Converts a stored `YYYY-MM-DD HH:MM:SS` (UTC) timestamp into RFC 2822
/// with the `time` crate: parses it with that format description
/// (`PrimitiveDateTime::parse`), assumes UTC and formats it as RFC 2822.
/// The contract names the result; what the crate computes is not restated.
#[verifier::external_body]
pub fn format_rfc2822(s: &str) -> (r: Option<String>)
    ensures
        opt_view(r) == rfc2822_of(s@),
{
    let fmt = time::format_description::parse("[year]-[month]-[day] [hour]:[minute]:[second]").ok()?;
    let primitive = time::PrimitiveDateTime::parse(s, &fmt).ok()?;
    primitive.assume_offset(time::UtcOffset::UTC).format(&time::format_description::well_known::Rfc2822).ok()
}

/// `HH:MM:SS` (hours unpadded) or `MM:SS` (minutes unpadded).
pub open spec fn timestamp(total: nat, use_hours: bool) -> Seq<char> {
    let h = total / 3600;
    let m = (total % 3600) / 60;
    let s = total % 60;
    if use_hours {
        decimal(h) + seq![':'] + pad2(m) + seq![':'] + pad2(s)
    } else {
        decimal(m) + seq![':'] + pad2(s)
    }
}

/// Formats a chapter start time.
pub fn format_timestamp(total: u64, use_hours: bool) -> (r: String)
    ensures
        r@ == timestamp(total as nat, use_hours),
{
    let h = total / 3600;
    let m = (total % 3600) / 60;
    let s = total % 60;
    let mut out = String::new();
    if use_hours {
        push_decimal(&mut out, h);
        crate::text::push_char(&mut out, ':');
        push_pad2(&mut out, m);
        crate::text::push_char(&mut out, ':');
        push_pad2(&mut out, s);
    } else {
        push_decimal(&mut out, m);
        crate::text::push_char(&mut out, ':');
        push_pad2(&mut out, s);
    }
    proof {
        assert(out@ =~= timestamp(total as nat, use_hours));
    }
    out
}

/// Views of chapter marks.
pub open spec fn mark_views(v: Seq<ChapterMark>) -> Seq<(nat, Seq<char>)> {
    v.map_values(|c: ChapterMark| (c.start_secs as nat, c.title@))
}

/// Chapter lines: the start time, a space, the title and a newline each.
pub open spec fn chapter_lines(marks: Seq<(nat, Seq<char>)>, use_hours: bool) -> Seq<char>
    decreases marks.len(),
{
    if marks.len() == 0 {
        seq![]
    } else {
        chapter_lines(marks.drop_last(), use_hours) + timestamp(marks.last().0, use_hours) + seq![' ']
            + marks.last().1 + seq!['\n']
    }
}

/// The chapter list of an episode: `None` without chapters; hours are shown
/// when the last chapter starts at an hour or later.
pub open spec fn chapters_text(marks: Option<Seq<(nat, Seq<char>)>>) -> Option<Seq<char>> {
    match marks {
        None => None,
        Some(m) => if m.len() == 0 {
            None
        } else {
            Some(chapter_lines(m, m.last().0 >= 3600))
        },
    }
}

/// Optional chapter marks, viewed.
pub open spec fn opt_marks(o: Option<Vec<ChapterMark>>) -> Option<Seq<(nat, Seq<char>)>> {
    match o {
        Some(v) => Some(mark_views(v@)),
        None => None,
    }
}

/// Renders the chapters into one line per chapter prefixed with its start
/// time; `None` when there are none.
pub fn render_chapters(chapters: &Option<Vec<ChapterMark>>) -> (r: Option<String>)
    ensures
        opt_view(r) == chapters_text(opt_marks(*chapters)),
{
    let marks = match chapters {
        Some(m) => m,
        None => {
            return None;
        },
    };
    let n = marks.len();
    if n == 0 {
        return None;
    }
    let ghost mv = mark_views(marks@);
    let use_hours = marks[n - 1].start_secs >= 3600;
    let mut out = String::new();
    let mut i: usize = 0;
    proof {
        assert(mv.take(0) =~= Seq::<(nat, Seq<char>)>::empty());
    }
    while i < n
        invariant
            i <= n == marks@.len() == mv.len(),
            mv == mark_views(marks@),
            out@ == chapter_lines(mv.take(i as int), use_hours),
        decreases n - i,
    {
        proof {
            assert(mv.take(i + 1).drop_last() =~= mv.take(i as int));
            assert(mv.take(i + 1).last() == mv[i as int]);
        }
        let t = format_timestamp(marks[i].start_secs, use_hours);
        push_str(&mut out, t.as_str());
        crate::text::push_char(&mut out, ' ');
        push_str(&mut out, marks[i].title.as_str());
        crate::text::push_char(&mut out, '\n');
        i += 1;
    }
    proof {
        assert(mv.take(n as int) =~= mv);
    }
    Some(out)
}

/// The description of an episode: its own description, else its source
/// URL, else "PDF upload"; the source URL is appended unless already
/// there, then the chapter list.
pub open spec fn episode_description(
    description: Option<Seq<char>>,
    source_url: Option<Seq<char>>,
    chapters: Option<Seq<(nat, Seq<char>)>>,
) -> Seq<char> {
    let base = match description {
        Some(d) => d,
        None => match source_url {
            Some(u) => u,
            None => "PDF upload"@,
        },
    };
    let with_source = match source_url {
        Some(u) => if !contains(base, u) {
            base + "\n\nSource: "@ + u
        } else {
            base
        },
        None => base,
    };
    match chapters_text(chapters) {
        Some(c) => with_source + "\n\nChapters:\n"@ + c,
        None => with_source,
    }
}

/// Builds the description of an episode.
pub fn describe_episode(ep: &RssEpisode) -> (r: String)
    ensures
        r@ == episode_description(
            opt_view(ep.description),
            opt_view(ep.source_url),
            opt_marks(ep.chapters),
        ),
{
    let base = match &ep.description {
        Some(d) => d.clone(),
        None => match &ep.source_url {
            Some(u) => u.clone(),
            None => owned("PDF upload"),
        },
    };
    let mut desc = base.clone();
    match &ep.source_url {
        Some(u) => {
            if !str_contains(base.as_str(), u.as_str()) {
                push_str(&mut desc, "\n\nSource: ");
                push_str(&mut desc, u.as_str());
            }
        },
        None => {},
    }
    match render_chapters(&ep.chapters) {
        Some(c) => {
            push_str(&mut desc, "\n\nChapters:\n");
            push_str(&mut desc, c.as_str());
        },
        None => {},
    }
    desc
}

/// Pieces of an item of the feed.
pub const ITEM_OPEN: &'static str = "    <item>\n      <title>";
pub const ITEM_GUID: &'static str = "</title>\n      <guid isPermaLink=\"false\">";
pub const ITEM_PUB_DATE: &'static str = "</guid>\n      <pubDate>";
pub const ITEM_DESCRIPTION: &'static str = "</pubDate>\n      <description>";
pub const ITEM_ENCLOSURE: &'static str = "</description>\n      <enclosure url=\"";
pub const ITEM_LENGTH: &'static str = "\" length=\"";
pub const ITEM_DURATION: &'static str = "\" type=\"audio/mpeg\"/>\n      <itunes:duration>";
pub const ITEM_DURATION_END: &'static str = "</itunes:duration>";
pub const ITEM_CLOSE: &'static str = "\n    </item>\n";
pub const ITEM_IMAGE: &'static str = "\n      <itunes:image href=\"";
pub const TAG_END: &'static str = "\"/>";

/// The image tag of an item, or nothing.
pub open spec fn item_image(image_url: Option<Seq<char>>) -> Seq<char> {
    match image_url {
        Some(u) => ITEM_IMAGE@ + xml_escape_spec(u) + TAG_END@,
        None => seq![],
    }
}

/// The `<item>` of an episode with its publication date already formatted.
pub open spec fn item_xml(ep: RssEpisode, pub_date: Seq<char>) -> Seq<char> {
    let audio_url = match ep.audio_url {
        Some(u) => u@,
        None => seq![],
    };
    let length = match ep.audio_bytes {
        Some(b) => b as int,
        None => 0,
    };
    let duration = match ep.duration_secs {
        Some(d) => d as int,
        None => 0,
    };
    ITEM_OPEN@ + xml_escape_spec(ep.title@) + ITEM_GUID@ + ep.id@ + ITEM_PUB_DATE@ + pub_date
        + ITEM_DESCRIPTION@ + xml_escape_spec(
        episode_description(opt_view(ep.description), opt_view(ep.source_url), opt_marks(ep.chapters)),
    ) + ITEM_ENCLOSURE@ + xml_escape_spec(audio_url) + ITEM_LENGTH@ + signed_decimal(length)
        + ITEM_DURATION@ + signed_decimal(duration) + ITEM_DURATION_END@ + item_image(
        opt_view(ep.image_url),
    ) + ITEM_CLOSE@
}

/// Renders the `<item>` of an episode, given its formatted publication date.
pub fn render_item(ep: &RssEpisode, pub_date: &str) -> (r: String)
    ensures
        r@ == item_xml(*ep, pub_date@),
{
    let description = describe_episode(ep);
    let mut out = String::new();
    push_str(&mut out, ITEM_OPEN);
    push_str(&mut out, xml_escape(ep.title.as_str()).as_str());
    push_str(&mut out, ITEM_GUID);
    push_str(&mut out, ep.id.as_str());
    push_str(&mut out, ITEM_PUB_DATE);
    push_str(&mut out, pub_date);
    push_str(&mut out, ITEM_DESCRIPTION);
    push_str(&mut out, xml_escape(description.as_str()).as_str());
    push_str(&mut out, ITEM_ENCLOSURE);
    match &ep.audio_url {
        Some(u) => push_str(&mut out, xml_escape(u.as_str()).as_str()),
        None => {
            proof {
                assert(xml_escape_spec(Seq::<char>::empty()) =~= Seq::<char>::empty());
            }
        },
    }
    push_str(&mut out, ITEM_LENGTH);
    let length: i64 = match ep.audio_bytes {
        Some(b) => b,
        None => 0,
    };
    push_signed_decimal(&mut out, length);
    push_str(&mut out, ITEM_DURATION);
    let duration: i32 = match ep.duration_secs {
        Some(d) => d,
        None => 0,
    };
    push_signed_decimal(&mut out, duration as i64);
    push_str(&mut out, ITEM_DURATION_END);
    match &ep.image_url {
        Some(u) => {
            push_str(&mut out, ITEM_IMAGE);
            push_str(&mut out, xml_escape(u.as_str()).as_str());
            push_str(&mut out, TAG_END);
        },
        None => {},
    }
    push_str(&mut out, ITEM_CLOSE);
    proof {
        assert(out@ =~= item_xml(*ep, pub_date@));
    }
    out
}

/// The publication date shown for an episode: its stored timestamp in
/// RFC 2822, or nothing when it is missing or does not parse.
pub open spec fn shown_pub_date(pub_date: Option<Seq<char>>) -> Seq<char> {
    match pub_date {
        Some(d) => match rfc2822_of(d) {
            Some(f) => f,
            None => seq![],
        },
        None => seq![],
    }
}

/// Pieces of the channel.
pub const CHANNEL_HEAD: &'static str = "<?xml version=\"1.0\" encoding=\"UTF-8\"?>\n<rss version=\"2.0\" xmlns:itunes=\"http://www.itunes.com/dtds/podcast-1.0.dtd\" xmlns:atom=\"http://www.w3.org/2005/Atom\">\n  <channel>\n    <title>";
pub const CHANNEL_DESCRIPTION: &'static str = "</title>\n    <description>";
pub const CHANNEL_LINK: &'static str = "</description>\n    <link>";
pub const CHANNEL_ATOM: &'static str = "</link>\n    <atom:link href=\"";
pub const CHANNEL_META: &'static str = "\" rel=\"self\" type=\"application/rss+xml\"/>\n    <language>en-us</language>\n    <itunes:author>Personal Podcast</itunes:author>\n    <itunes:category text=\"Technology\"/>\n    <itunes:explicit>false</itunes:explicit>";
pub const CHANNEL_TAIL: &'static str = "  </channel>\n</rss>";
pub const CHANNEL_IMAGE: &'static str = "\n    <itunes:image href=\"";
pub const CHANNEL_IMAGE_URL: &'static str = "\"/>\n    <image>\n      <url>";
pub const CHANNEL_IMAGE_TITLE: &'static str = "</url>\n      <title>";
pub const CHANNEL_IMAGE_LINK: &'static str = "</title>\n      <link>";
pub const CHANNEL_IMAGE_END: &'static str = "</link>\n    </image>";

/// The web page of a feed.
pub open spec fn feed_link(public_url: Seq<char>, token: Seq<char>) -> Seq<char> {
    public_url + "/feeds/"@ + token
}

/// The RSS address of a feed.
pub open spec fn rss_link(public_url: Seq<char>, token: Seq<char>) -> Seq<char> {
    public_url + "/feed/"@ + token + "/rss.xml"@
}

/// The channel image block, or nothing.
pub open spec fn channel_image(image_url: Option<Seq<char>>, title: Seq<char>, link: Seq<char>) -> Seq<char> {
    match image_url {
        Some(u) => CHANNEL_IMAGE@ + xml_escape_spec(u) + CHANNEL_IMAGE_URL@ + xml_escape_spec(u)
            + CHANNEL_IMAGE_TITLE@ + xml_escape_spec(title) + CHANNEL_IMAGE_LINK@ + xml_escape_spec(
            link,
        ) + CHANNEL_IMAGE_END@,
        None => seq![],
    }
}

/// The items of the episodes, in order, each with its shown date.
pub open spec fn items_xml(eps: Seq<RssEpisode>) -> Seq<char>
    decreases eps.len(),
{
    if eps.len() == 0 {
        seq![]
    } else {
        items_xml(eps.drop_last()) + item_xml(eps.last(), shown_pub_date(opt_view(eps.last().pub_date)))
    }
}

/// The whole feed document.
pub open spec fn feed_xml(public_url: Seq<char>, feed: FeedInfo, eps: Seq<RssEpisode>) -> Seq<char> {
    let link = feed_link(public_url, feed.feed_token@);
    CHANNEL_HEAD@ + xml_escape_spec(feed.title@) + CHANNEL_DESCRIPTION@ + xml_escape_spec(
        feed.description@,
    ) + CHANNEL_LINK@ + xml_escape_spec(link) + CHANNEL_ATOM@ + xml_escape_spec(
        rss_link(public_url, feed.feed_token@),
    ) + CHANNEL_META@ + channel_image(opt_view(feed.image_url), feed.title@, link) + seq!['\n']
        + items_xml(eps) + CHANNEL_TAIL@
}

/// Renders the RSS document of a feed and its episodes (newest first, as
/// given).
pub fn render_feed(public_url: &str, feed: &FeedInfo, episodes: &Vec<RssEpisode>) -> (r: String)
    ensures
        r@ == feed_xml(public_url@, *feed, episodes@),
{
    let mut link = String::new();
    push_str(&mut link, public_url);
    push_str(&mut link, "/feeds/");
    push_str(&mut link, feed.feed_token.as_str());
    let mut rss = String::new();
    push_str(&mut rss, public_url);
    push_str(&mut rss, "/feed/");
    push_str(&mut rss, feed.feed_token.as_str());
    push_str(&mut rss, "/rss.xml");
    proof {
        assert(link@ =~= feed_link(public_url@, feed.feed_token@));
        assert(rss@ =~= rss_link(public_url@, feed.feed_token@));
    }
    let mut items = String::new();
    let mut i: usize = 0;
    proof {
        assert(episodes@.take(0) =~= Seq::<RssEpisode>::empty());
    }
    while i < episodes.len()
        invariant
            i <= episodes@.len(),
            items@ == items_xml(episodes@.take(i as int)),
        decreases episodes@.len() - i,
    {
        proof {
            assert(episodes@.take(i + 1).drop_last() =~= episodes@.take(i as int));
            assert(episodes@.take(i + 1).last() == episodes@[i as int]);
        }
        let ep = &episodes[i];
        let date = match &ep.pub_date {
            Some(d) => match format_rfc2822(d.as_str()) {
                Some(f) => f,
                None => String::new(),
            },
            None => String::new(),
        };
        proof {
            assert(date@ == shown_pub_date(opt_view(ep.pub_date)));
        }
        let item = render_item(ep, date.as_str());
        push_str(&mut items, item.as_str());
        i += 1;
    }
    proof {
        assert(episodes@.take(episodes@.len() as int) =~= episodes@);
    }
    let mut out = String::new();
    push_str(&mut out, CHANNEL_HEAD);
    push_str(&mut out, xml_escape(feed.title.as_str()).as_str());
    push_str(&mut out, CHANNEL_DESCRIPTION);
    push_str(&mut out, xml_escape(feed.description.as_str()).as_str());
    push_str(&mut out, CHANNEL_LINK);
    push_str(&mut out, xml_escape(link.as_str()).as_str());
    push_str(&mut out, CHANNEL_ATOM);
    push_str(&mut out, xml_escape(rss.as_str()).as_str());
    push_str(&mut out, CHANNEL_META);
    match &feed.image_url {
        Some(u) => {
            let eu = xml_escape(u.as_str());
            push_str(&mut out, CHANNEL_IMAGE);
            push_str(&mut out, eu.as_str());
            push_str(&mut out, CHANNEL_IMAGE_URL);
            push_str(&mut out, eu.as_str());
            push_str(&mut out, CHANNEL_IMAGE_TITLE);
            push_str(&mut out, xml_escape(feed.title.as_str()).as_str());
            push_str(&mut out, CHANNEL_IMAGE_LINK);
            push_str(&mut out, xml_escape(link.as_str()).as_str());
            push_str(&mut out, CHANNEL_IMAGE_END);
        },
        None => {},
    }
    crate::text::push_char(&mut out, '\n');
    push_str(&mut out, items.as_str());
    push_str(&mut out, CHANNEL_TAIL);
    proof {
        assert(out@ =~= feed_xml(public_url@, *feed, episodes@));
    }
    out
}

} // verus!
