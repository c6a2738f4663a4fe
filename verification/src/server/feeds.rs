//! Feed management: request and response shapes and the decisions of the
//! feed endpoints.
use vstd::prelude::*;
use crate::error::AppError;
use crate::text::{owned, push_str, str_eq, str_strip_prefix, strip_prefix, trim};

verus! {

/// Partial update of a feed; absent fields keep their value.
pub struct UpdateFeedRequest {
    pub slug: Option<String>,
    pub title: Option<String>,
    pub description: Option<String>,
}

/// Request to create a feed.
pub struct CreateFeedRequest {
    pub slug: String,
    pub title: String,
    pub description: String,
    pub tts_default: String,
}

/// A stored feed.
pub struct FeedRow {
    pub id: String,
    pub slug: String,
    pub title: String,
    pub description: String,
    pub feed_token: String,
    pub tts_default: String,
    pub created_at: String,
    pub image_url: Option<String>,
}

/// A feed as answered by the API.
pub struct FeedResponse {
    pub id: String,
    pub slug: String,
    pub title: String,
    pub description: String,
    pub feed_token: String,
    pub tts_default: String,
    pub rss_url: String,
    pub created_at: String,
    pub image_url: Option<String>,
}

/// A feed in the admin listing.
pub struct FeedListItem {
    pub id: String,
    pub slug: String,
    pub title: String,
    pub description: String,
    pub feed_token: String,
    pub tts_default: String,
    pub created_at: String,
    pub image_url: Option<String>,
    pub episode_count: i32,
}

/// A feed with its latest episodes.
pub struct FeedWithEpisodes {
    pub id: String,
    pub slug: String,
    pub title: String,
    pub description: String,
    pub tts_default: String,
    pub rss_url: String,
    pub image_url: Option<String>,
    pub episodes: Vec<EpisodeSummary>,
}

/// An episode in a feed view.
pub struct EpisodeSummary {
    pub id: String,
    pub title: String,
    pub source_url: Option<String>,
    pub source_type: String,
    pub status: String,
    pub audio_url: Option<String>,
    pub image_url: Option<String>,
    pub duration_secs: Option<i32>,
    pub word_count: Option<i32>,
    pub tts_chunks_done: i32,
    pub tts_chunks_total: i32,
    pub tts_provider: Option<String>,
    pub description: Option<String>,
    pub error_msg: Option<String>,
    pub pub_date: Option<String>,
    pub created_at: String,
    pub summarize: i32,
    pub retry_at: Option<String>,
}

/// The speech provider of a feed created without one.
pub fn default_tts() -> (r: String)
    ensures
        r@ == "google"@,
{
    owned("google")
}

/// The `Authorization` header carries `Bearer <admin_token>`.
pub open spec fn admin_authorized(authorization: Option<Seq<char>>, admin_token: Seq<char>) -> bool {
    let auth = match authorization {
        Some(a) => a,
        None => Seq::<char>::empty(),
    };
    let token = match strip_prefix(auth, "Bearer "@) {
        Some(t) => t,
        None => Seq::<char>::empty(),
    };
    token == admin_token
}

/// Admin check of the feed endpoints: `Unauthorized` unless the
/// `Authorization` header is `Bearer <admin_token>`.
pub fn require_admin(authorization: Option<&str>, admin_token: &str) -> (r: Result<(), AppError>)
    ensures
        r is Ok <==> admin_authorized(
            match authorization {
                Some(a) => Some(a@),
                None => None,
            },
            admin_token@,
        ),
        r matches Err(e) ==> e is Unauthorized,
{
    let auth = match authorization {
        Some(a) => a,
        None => "",
    };
    proof {
        reveal_strlit("");
        assert(""@ =~= Seq::<char>::empty());
    }
    let token = match str_strip_prefix(auth, "Bearer ") {
        Some(t) => t,
        None => String::new(),
    };
    if !str_eq(token.as_str(), admin_token) {
        return Err(AppError::Unauthorized);
    }
    Ok(())
}

/// Only the Google voice is offered for new feeds.
pub fn validate_create(req: &CreateFeedRequest) -> (r: Result<(), AppError>)
    ensures
        r is Ok <==> req.tts_default@ == "google"@,
        r matches Err(e) ==> e matches AppError::BadRequest(m) && m@ == "tts_default must be 'google'"@,
{
    if !str_eq(req.tts_default.as_str(), "google") {
        return Err(AppError::BadRequest(owned("tts_default must be 'google'")));
    }
    Ok(())
}

/// The public RSS address of a feed.
pub open spec fn rss_url_spec(public_url: Seq<char>, feed_token: Seq<char>) -> Seq<char> {
    public_url + "/feed/"@ + feed_token + "/rss.xml"@
}

/// `{public_url}/feed/{feed_token}/rss.xml`.
pub fn rss_url(public_url: &str, feed_token: &str) -> (r: String)
    ensures
        r@ == rss_url_spec(public_url@, feed_token@),
{
    let mut r = owned(public_url);
    push_str(&mut r, "/feed/");
    push_str(&mut r, feed_token);
    push_str(&mut r, "/rss.xml");
    proof {
        assert(r@ =~= rss_url_spec(public_url@, feed_token@));
    }
    r
}

/// The API shape of a stored feed.
pub fn feed_response(row: FeedRow, rss_url: String) -> (r: FeedResponse)
    ensures
        r.id == row.id,
        r.slug == row.slug,
        r.title == row.title,
        r.description == row.description,
        r.feed_token == row.feed_token,
        r.tts_default == row.tts_default,
        r.rss_url == rss_url,
        r.created_at == row.created_at,
        r.image_url == row.image_url,
{
    FeedResponse {
        id: row.id,
        slug: row.slug,
        title: row.title,
        description: row.description,
        feed_token: row.feed_token,
        tts_default: row.tts_default,
        rss_url,
        created_at: row.created_at,
        image_url: row.image_url,
    }
}

/// A feed after a partial update: each field of the request replaces the
/// stored one when present.
pub fn apply_update(feed: FeedRow, req: UpdateFeedRequest) -> (r: FeedRow)
    ensures
        r.slug == (match req.slug {
            Some(s) => s,
            None => feed.slug,
        }),
        r.title == (match req.title {
            Some(s) => s,
            None => feed.title,
        }),
        r.description == (match req.description {
            Some(s) => s,
            None => feed.description,
        }),
        r.id == feed.id,
        r.feed_token == feed.feed_token,
        r.tts_default == feed.tts_default,
        r.created_at == feed.created_at,
        r.image_url == feed.image_url,
{
    let slug = match req.slug {
        Some(s) => s,
        None => feed.slug,
    };
    let title = match req.title {
        Some(s) => s,
        None => feed.title,
    };
    let description = match req.description {
        Some(s) => s,
        None => feed.description,
    };
    FeedRow {
        id: feed.id,
        slug,
        title,
        description,
        feed_token: feed.feed_token,
        tts_default: feed.tts_default,
        created_at: feed.created_at,
        image_url: feed.image_url,
    }
}

/// The brief for a feed's cover image: the title, followed by `". "` and the
/// description when that is not blank.
pub fn image_brief(title: &str, description: &str) -> (r: String)
    ensures
        r@ == (if trim(description@).len() == 0 {
            title@
        } else {
            title@ + ". "@ + description@
        }),
{
    let t = crate::text::trim_str(description);
    if t.as_str().is_empty() {
        owned(title)
    } else {
        let mut r = owned(title);
        push_str(&mut r, ". ");
        push_str(&mut r, description);
        proof {
            assert(r@ =~= title@ + ". "@ + description@);
        }
        r
    }
}

} // verus!
