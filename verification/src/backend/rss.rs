//! The RSS feed of the first server.
use vstd::prelude::*;

use crate::server::rss::{rss_link, ITEM_CLOSE, ITEM_DESCRIPTION, ITEM_DURATION, ITEM_DURATION_END, ITEM_ENCLOSURE, ITEM_GUID, ITEM_IMAGE, ITEM_OPEN, ITEM_PUB_DATE, TAG_END, CHANNEL_DESCRIPTION, CHANNEL_LINK, CHANNEL_TAIL};
use crate::text::{push_signed_decimal, push_str, signed_decimal};
use crate::tts::{xml_escape, xml_escape_spec};

verus! {

/// A feed as this server stores it.
pub struct FeedInfo {
    pub id: String,
    pub title: String,
    pub description: String,
    pub feed_token: String,
}

/// A finished episode as this server lists it.
pub struct RssEpisode {
    pub id: String,
    pub title: String,
    pub source_url: Option<String>,
    pub audio_url: Option<String>,
    pub image_url: Option<String>,
    pub duration_secs: Option<i32>,
    pub pub_date: Option<String>,
}

/// Between the duration and the enclosure of an item.
pub const ITEM_ZERO_LENGTH: &'static str = "\" length=\"0";

/// The `<item>` of an episode.
pub open spec fn item_xml(ep: RssEpisode) -> Seq<char> {
    let some_or_empty = |o: Option<String>|
        match o {
            Some(s) => s@,
            None => Seq::<char>::empty(),
        };
    let description = match ep.source_url {
        Some(u) => u@,
        None => "PDF upload"@,
    };
    let duration = match ep.duration_secs {
        Some(d) => d as int,
        None => 0,
    };
    let image = match ep.image_url {
        Some(u) => ITEM_IMAGE@ + xml_escape_spec(u@) + TAG_END@,
        None => seq![],
    };
    ITEM_OPEN@ + xml_escape_spec(ep.title@) + ITEM_GUID@ + ep.id@ + ITEM_PUB_DATE@ + some_or_empty(
        ep.pub_date,
    ) + ITEM_DESCRIPTION@ + xml_escape_spec(description) + ITEM_ENCLOSURE@ + xml_escape_spec(
        some_or_empty(ep.audio_url),
    ) + ITEM_ZERO_LENGTH@ + ITEM_DURATION@ + signed_decimal(duration) + ITEM_DURATION_END@ + image
        + ITEM_CLOSE@
}

/// Renders the `<item>` of an episode.
pub fn render_item(ep: &RssEpisode) -> (r: String)
    ensures
        r@ == item_xml(*ep),
{
    let mut out = String::new();
    push_str(&mut out, ITEM_OPEN);
    push_str(&mut out, xml_escape(ep.title.as_str()).as_str());
    push_str(&mut out, ITEM_GUID);
    push_str(&mut out, ep.id.as_str());
    push_str(&mut out, ITEM_PUB_DATE);
    match &ep.pub_date {
        Some(d) => push_str(&mut out, d.as_str()),
        None => {},
    }
    push_str(&mut out, ITEM_DESCRIPTION);
    match &ep.source_url {
        Some(u) => push_str(&mut out, xml_escape(u.as_str()).as_str()),
        None => push_str(&mut out, xml_escape("PDF upload").as_str()),
    }
    push_str(&mut out, ITEM_ENCLOSURE);
    match &ep.audio_url {
        Some(u) => push_str(&mut out, xml_escape(u.as_str()).as_str()),
        None => {
            proof {
                assert(xml_escape_spec(Seq::<char>::empty()) =~= Seq::<char>::empty());
            }
        },
    }
    push_str(&mut out, ITEM_ZERO_LENGTH);
    push_str(&mut out, ITEM_DURATION);
    let duration: i32 = match ep.duration_secs {
        Some(d) => d,
        None => 0,
    };
    push_signed_decimal(&mut out, duration as i64);
    push_str(&mut out, ITEM_DURATION_END);
    match &ep.image_url {
        Some(u) => {
            push_str(&mut out, ITEM_IMAGE);
            push_str(&mut out, xml_escape(u.as_str()).as_str());
            push_str(&mut out, TAG_END);
        },
        None => {},
    }
    push_str(&mut out, ITEM_CLOSE);
    proof {
        assert(out@ =~= item_xml(*ep));
    }
    out
}

/// The items of the episodes, in order.
pub open spec fn items_xml(eps: Seq<RssEpisode>) -> Seq<char>
    decreases eps.len(),
{
    if eps.len() == 0 {
        seq![]
    } else {
        items_xml(eps.drop_last()) + item_xml(eps.last())
    }
}

/// Start of the channel.
pub const CHANNEL_HEAD: &'static str = "<?xml version=\"1.0\" encoding=\"UTF-8\"?>\n<rss version=\"2.0\" xmlns:itunes=\"http://www.itunes.com/dtds/podcast-1.0.dtd\">\n  <channel>\n    <title>";

/// After the channel link.
pub const CHANNEL_META: &'static str = "</link>\n    <language>en-us</language>\n    <itunes:author>Personal Podcast</itunes:author>\n    <itunes:category text=\"Technology\"/>\n";

/// The whole feed document; its link is the feed's RSS address.
pub open spec fn feed_xml(public_url: Seq<char>, feed: FeedInfo, eps: Seq<RssEpisode>) -> Seq<char> {
    CHANNEL_HEAD@ + xml_escape_spec(feed.title@) + CHANNEL_DESCRIPTION@ + xml_escape_spec(
        feed.description@,
    ) + CHANNEL_LINK@ + xml_escape_spec(rss_link(public_url, feed.feed_token@)) + CHANNEL_META@
        + items_xml(eps) + CHANNEL_TAIL@
}

/// Renders the RSS document of a feed and its episodes.
pub fn render_feed(public_url: &str, feed: &FeedInfo, episodes: &Vec<RssEpisode>) -> (r: String)
    ensures
        r@ == feed_xml(public_url@, *feed, episodes@),
{
    let mut link = String::new();
    push_str(&mut link, public_url);
    push_str(&mut link, "/feed/");
    push_str(&mut link, feed.feed_token.as_str());
    push_str(&mut link, "/rss.xml");
    proof {
        assert(link@ =~= rss_link(public_url@, feed.feed_token@));
    }
    let mut items = String::new();
    let mut i: usize = 0;
    proof {
        assert(episodes@.take(0) =~= Seq::<RssEpisode>::empty());
    }
    while i < episodes.len()
        invariant
            i <= episodes@.len(),
            items@ == items_xml(episodes@.take(i as int)),
        decreases episodes@.len() - i,
    {
        proof {
            assert(episodes@.take(i + 1).drop_last() =~= episodes@.take(i as int));
            assert(episodes@.take(i + 1).last() == episodes@[i as int]);
        }
        let item = render_item(&episodes[i]);
        push_str(&mut items, item.as_str());
        i += 1;
    }
    proof {
        assert(episodes@.take(episodes@.len() as int) =~= episodes@);
    }
    let mut out = String::new();
    push_str(&mut out, CHANNEL_HEAD);
    push_str(&mut out, xml_escape(feed.title.as_str()).as_str());
    push_str(&mut out, CHANNEL_DESCRIPTION);
    push_str(&mut out, xml_escape(feed.description.as_str()).as_str());
    push_str(&mut out, CHANNEL_LINK);
    push_str(&mut out, xml_escape(link.as_str()).as_str());
    push_str(&mut out, CHANNEL_META);
    push_str(&mut out, items.as_str());
    push_str(&mut out, CHANNEL_TAIL);
    proof {
        assert(out@ =~= feed_xml(public_url@, *feed, episodes@));
    }
    out
}

} // verus!
