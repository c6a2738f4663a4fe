//! Feed management of the first server generation.
use vstd::prelude::*;

verus! {

/// Request to create a feed.
pub struct CreateFeedRequest {
    pub slug: String,
    pub title: String,
    pub description: String,
    pub tts_default: String,
}

/// A stored feed.
pub struct FeedRow {
    pub id: String,
    pub slug: String,
    pub title: String,
    pub description: String,
    pub feed_token: String,
    pub tts_default: String,
    pub created_at: String,
}

/// A feed as answered by the API.
pub struct FeedResponse {
    pub id: String,
    pub slug: String,
    pub title: String,
    pub description: String,
    pub feed_token: String,
    pub tts_default: String,
    pub rss_url: String,
    pub created_at: String,
}

/// A feed in the admin listing.
pub struct FeedListItem {
    pub id: String,
    pub slug: String,
    pub title: String,
    pub description: String,
    pub feed_token: String,
    pub tts_default: String,
    pub created_at: String,
    pub episode_count: i32,
}

/// A feed with its latest episodes.
pub struct FeedWithEpisodes {
    pub id: String,
    pub slug: String,
    pub title: String,
    pub description: String,
    pub tts_default: String,
    pub rss_url: String,
    pub episodes: Vec<EpisodeSummary>,
}

/// An episode in a feed view.
pub struct EpisodeSummary {
    pub id: String,
    pub title: String,
    pub source_url: Option<String>,
    pub source_type: String,
    pub status: String,
    pub audio_url: Option<String>,
    pub image_url: Option<String>,
    pub duration_secs: Option<i32>,
    pub tts_provider: Option<String>,
    pub error_msg: Option<String>,
    pub pub_date: Option<String>,
    pub created_at: String,
}

/// The API shape of a stored feed.
pub fn feed_response(row: FeedRow, rss_url: String) -> (r: FeedResponse)
    ensures
        r.id == row.id,
        r.slug == row.slug,
        r.title == row.title,
        r.description == row.description,
        r.feed_token == row.feed_token,
        r.tts_default == row.tts_default,
        r.rss_url == rss_url,
        r.created_at == row.created_at,
{
    FeedResponse {
        id: row.id,
        slug: row.slug,
        title: row.title,
        description: row.description,
        feed_token: row.feed_token,
        tts_default: row.tts_default,
        rss_url,
        created_at: row.created_at,
    }
}

} // verus!
