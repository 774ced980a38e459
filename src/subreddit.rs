use vstd::prelude::*;
use vstd::string::*;
use crate::options::{anchor_text, time_name, ListingOptions, TimeFilter};
use crate::responses::SubredditAboutData;
use crate::text::{decimal, push_decimal};
use crate::traits::Created;

verus! {

/// A subreddit, by name.
pub struct Subreddit {
    /// The name of the subreddit, without the leading `/r/`.
    pub name: String,
}

/// The two queries of a feed: the stem that pagination appends continuation tokens to,
/// and the query of the first page, with the anchor.
pub struct FeedQuery {
    pub stem: String,
    pub first: String,
}

/// The stem of the feed `ty` (e.g. `hot?`) of subreddit `name`, with a page size.
pub open spec fn feed_stem(name: Seq<char>, ty: Seq<char>, batch: u8) -> Seq<char> {
    "/r/"@ + name + "/"@ + ty + "limit="@ + decimal(batch as nat) + "&raw_json=1"@
}

impl Subreddit {
    /// The subreddit with this name.
    pub fn create_new(name: &str) -> (r: Subreddit)
        ensures
            r.name@ == name@,
    {
        Subreddit { name: name.to_owned() }
    }

    /// The queries of the feed `ty` (`hot?`, `new?`, `rising?`, or one made by
    /// `timed_feed`) under the given options.
    pub fn feed_query(&self, ty: &str, opts: &ListingOptions) -> (r: FeedQuery)
        ensures
            r.stem@ == feed_stem(self.name@, ty@, opts.batch),
            r.first@ == feed_stem(self.name@, ty@, opts.batch) + "&"@ + anchor_text(opts.anchor),
    {
        let mut stem = String::from_str("/r/");
        stem.append(self.name.as_str());
        stem.append("/");
        stem.append(ty);
        stem.append("limit=");
        push_decimal(&mut stem, opts.batch as u64);
        stem.append("&raw_json=1");
        let mut first = stem.clone();
        first.append("&");
        let anchor = opts.anchor.to_string();
        first.append(anchor.as_str());
        FeedQuery { stem, first }
    }

    /// The feed type of a time-filtered listing: `kind` is `top` or `controversial`.
    pub fn timed_feed(kind: &str, time: &TimeFilter) -> (r: String)
        ensures
            r@ == kind@ + "?"@ + "&t="@ + time_name(*time) + "&"@,
    {
        let mut r = String::from_str(kind);
        r.append("?");
        let t = time.to_string();
        r.append(t.as_str());
        r.append("&");
        r
    }

    /// The URL that a stream of new posts polls: the five newest posts.
    pub fn new_stream_url(&self) -> (r: String)
        ensures
            r@ == "/r/"@ + self.name@ + "/new?limit=5"@,
    {
        let mut r = String::from_str("/r/");
        r.append(self.name.as_str());
        r.append("/new?limit=5");
        r
    }
}

/// Information about a subreddit: subscribers, active users and so on.
pub struct SubredditAbout {
    data: SubredditAboutData,
}

impl SubredditAbout {
    pub closed spec fn data(&self) -> SubredditAboutData {
        self.data
    }

    /// Wraps decoded 'about' data.
    pub fn new(data: SubredditAboutData) -> (r: SubredditAbout)
        ensures
            r.data() == data,
    {
        SubredditAbout { data }
    }

    /// The number of subscribers.
    pub fn subscribers(&self) -> (r: u64)
        ensures
            r == self.data().subscribers,
    {
        self.data.subscribers
    }

    /// The number of logged-in users who viewed the subreddit in the last 15 minutes.
    pub fn active_users(&self) -> (r: u64)
        ensures
            r == self.data().accounts_active,
    {
        self.data.accounts_active
    }

    /// `true` if the subreddit is visible to the public.
    pub fn public(&self) -> (r: bool)
        ensures
            r == self.data().public_traffic,
    {
        self.data.public_traffic
    }

    /// The display name, without the leading `/r/`.
    pub fn display_name(&self) -> (r: &str)
        ensures
            r@ == self.data().display_name@,
    {
        self.data.display_name.as_str()
    }
}

impl Created for SubredditAbout {
    open spec fn created_at(&self) -> i64 {
        self.data().created
    }

    open spec fn created_utc_at(&self) -> i64 {
        self.data().created_utc
    }

    fn created(&self) -> (r: i64) {
        self.data.created
    }

    fn created_utc(&self) -> (r: i64) {
        self.data.created_utc
    }
}

} // verus!
