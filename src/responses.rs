use vstd::prelude::*;

verus! {

/// A base structure for 'Thing' and 'Listing' objects, which both carry a `kind` and `data`.
pub struct BasicThing<T> {
    /// The kind of object: `t1` comment, `t2` account, `t3` link, `t4` message,
    /// `t5` subreddit, `more` a deferred expansion, `Listing` a page.
    pub kind: String,
    /// The data contained by this object.
    pub data: T,
}

/// One page of a flat listing.
pub struct ListingData<T> {
    /// CSRF token sent with the listing, if any.
    pub modhash: Option<String>,
    /// The items of this page, in the order the server returned them.
    pub children: Vec<BasicThing<T>>,
    /// Continuation token of the next page; `None` on the last page.
    pub after: Option<String>,
    /// Continuation token of the previous page.
    pub before: Option<String>,
}

/// Whether and when an item was edited, as the API reports it: `false`, `true` or an
/// edit timestamp.
pub enum Edited {
    /// The API sent a boolean.
    Flag(bool),
    /// The API sent something else: the timestamp, when it is an integer.
    Time(Option<i64>),
}

impl Edited {
    /// `true` unless the API said `false`.
    pub fn edited(&self) -> (r: bool)
        ensures
            r == !(*self matches Edited::Flag(b) && !b),
    {
        match self {
            Edited::Flag(b) => *b,
            Edited::Time(_) => true,
        }
    }

    /// The edit timestamp, when the API sent one as an integer.
    pub fn edited_time(&self) -> (r: Option<i64>)
        ensures
            r == (match *self {
                Edited::Flag(_) => None,
                Edited::Time(t) => t,
            }),
    {
        match self {
            Edited::Flag(_) => None,
            Edited::Time(t) => *t,
        }
    }
}

/// The fields of a comment.
pub struct CommentData {
    pub subreddit_id: String,
    pub banned_by: Option<String>,
    pub removal_reason: Option<String>,
    /// Full name of the submission this comment belongs to.
    pub link_id: String,
    /// `Some(true)` upvoted, `Some(false)` downvoted, `None` no vote by the logged-in user.
    pub likes: Option<bool>,
    pub saved: bool,
    /// Base-36 identifier, without kind.
    pub id: String,
    pub gilded: u64,
    pub archived: bool,
    pub author: String,
    pub score: i64,
    pub approved_by: Option<String>,
    pub body: String,
    pub edited: Edited,
    pub author_flair_css_class: Option<String>,
    pub downs: i64,
    pub ups: i64,
    pub body_html: String,
    pub subreddit: String,
    /// Full name (kind and identifier, e.g. `t1_4te6jf`): the node's identity in a tree.
    pub name: String,
    pub score_hidden: bool,
    pub stickied: bool,
    pub created: i64,
    pub author_flair_text: Option<String>,
    pub created_utc: i64,
    pub distinguished: Option<String>,
    pub num_reports: Option<u64>,
    /// Full name of the enclosing comment, or of the submission for a top-level comment.
    pub parent_id: String,
}

/// A deferred expansion: more children of `parent_id` exist and are fetched in one batch.
pub struct More {
    pub count: u64,
    pub parent_id: String,
    /// The full names to fetch, in order.
    pub children: Vec<String>,
}

/// The fields of a link post or self post.
pub struct SubmissionData {
    pub id: String,
    pub name: String,
    pub title: String,
    pub is_self: bool,
    pub url: Option<String>,
    pub over_18: bool,
    pub selftext: String,
    pub selftext_html: Option<String>,
    pub score: i64,
    pub likes: Option<bool>,
    pub created: i64,
    pub created_utc: i64,
    pub edited: Edited,
    pub author: String,
    pub author_flair_text: Option<String>,
    pub author_flair_css_class: Option<String>,
    pub subreddit: String,
    pub num_comments: u64,
    pub stickied: bool,
    pub locked: bool,
    pub hidden: bool,
    pub distinguished: Option<String>,
    pub num_reports: Option<u64>,
    pub link_flair_text: Option<String>,
    pub link_flair_css_class: Option<String>,
}

/// The fields of a private message.
pub struct MessageData {
    pub author: Option<String>,
    pub body: String,
    pub body_html: String,
    pub context: String,
    pub first_message_name: Option<String>,
    pub likes: Option<bool>,
    pub name: String,
    pub link_title: Option<String>,
    pub parent_id: Option<String>,
    pub subject: String,
    pub subreddit: Option<String>,
    pub was_comment: bool,
    pub created: i64,
    pub created_utc: i64,
}

/// The fields of a subreddit's 'about' page.
pub struct SubredditAboutData {
    pub display_name: String,
    pub subscribers: u64,
    pub accounts_active: u64,
    pub public_traffic: bool,
    pub created: i64,
    pub created_utc: i64,
}

/// The fields of a user's 'about' page.
pub struct UserAboutData {
    pub name: String,
    pub is_friend: bool,
    pub hide_from_robots: bool,
    pub id: String,
    pub created: i64,
    pub created_utc: i64,
    pub link_karma: i64,
    pub comment_karma: i64,
    pub is_gold: bool,
    pub is_mod: bool,
    pub has_verified_email: bool,
}

/// An access token answer of the OAuth token endpoint.
pub struct TokenResponse {
    pub access_token: String,
    pub expires_in: u64,
    pub scope: String,
    pub token_type: String,
}

/// The flair choices offered for an item, and its current flair.
pub struct FlairSelectorResponse {
    pub current: CurrentFlairResponse,
    pub choices: Vec<FlairChoice>,
}

/// One flair that can be assigned.
pub struct FlairChoice {
    pub flair_css_class: String,
    pub flair_template_id: String,
    pub flair_text: String,
    pub flair_position: String,
    pub flair_text_editable: bool,
}

/// The flair an item carries now.
pub struct CurrentFlairResponse {
    pub flair_css_class: Option<String>,
    pub flair_template_id: Option<String>,
    pub flair_text: Option<String>,
    pub flair_position: Option<String>,
}

} // verus!
