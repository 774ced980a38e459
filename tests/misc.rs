use rawr::client::{build_url, url_escape};
use rawr::errors::{check_status, is_success, APIError};
use rawr::options::{LinkPost, ListingAnchor, ListingOptions, SelfPost, TimeFilter};
use rawr::responses::{FlairChoice, SubredditAboutData, UserAboutData};
use rawr::submission::FlairList;
use rawr::subreddit::{Subreddit, SubredditAbout};
use rawr::text::join_commas;
use rawr::traits::Created;
use rawr::user::{User, UserAbout};

#[test]
fn escapes_reserved_and_non_ascii() {
    assert_eq!(url_escape("test&co"), "test%26co");
    assert_eq!(url_escape("👍"), "%F0%9F%91%8D");
    assert_eq!(url_escape("\n"), "%0A");
    assert_eq!(url_escape("a b*-._Z9"), "a+b*-._Z9");
    assert_eq!(url_escape(""), "");
}

#[test]
fn urls_use_the_right_host() {
    assert_eq!(build_url("/api/v1/me", false, false).ok(), Some(String::from("https://api.reddit.com/api/v1/me")));
    assert_eq!(build_url("/x", false, true).ok(), Some(String::from("https://oauth.reddit.com/x")));
    assert_eq!(build_url("/x", true, true).ok(), Some(String::from("https://oauth.reddit.com/x")));
    assert!(matches!(build_url("/x", true, false), Err(APIError::NotSupported(_))));
}

#[test]
fn status_codes() {
    assert!(is_success(200));
    assert!(is_success(299));
    assert!(!is_success(300));
    assert!(!is_success(199));
    assert!(check_status(204).is_ok());
    assert!(matches!(check_status(403), Err(APIError::HTTPError(403))));
    assert!(APIError::HTTPError(401).needs_refresh());
    assert!(!APIError::HTTPError(403).needs_refresh());
    assert!(!APIError::ExhaustedListing.needs_refresh());
}

#[test]
fn json_errors_convert() {
    let err = serde_json::from_str::<u32>("not json").unwrap_err();
    assert!(matches!(APIError::from(err), APIError::JSONError(_)));
}

#[test]
fn listing_options_render() {
    let opts = ListingOptions::default();
    assert_eq!(opts.batch, 25);
    assert_eq!(opts.to_string(), "limit=25");
    assert_eq!(ListingOptions { batch: 100, anchor: ListingAnchor::NoAnchor }.to_string(), "limit=100");
    assert_eq!(ListingOptions { batch: 0, anchor: ListingAnchor::NoAnchor }.to_string(), "limit=0");
    assert_eq!(ListingAnchor::After(String::from("t3_a")).to_string(), "after=t3_a");
    assert_eq!(ListingAnchor::Before(String::from("t3_b")).to_string(), "before=t3_b");
    assert_eq!(ListingAnchor::NoAnchor.to_string(), "");
    assert_eq!(TimeFilter::AllTime.to_string(), "&t=all");
    assert_eq!(TimeFilter::Hour.to_string(), "&t=hour");
}

#[test]
fn posts_options() {
    let p = LinkPost::new("title", "https://example.com");
    assert!(!p.resubmit);
    let p = p.resubmit();
    assert!(p.resubmit);
    assert_eq!(p.title, "title");
    assert_eq!(p.link, "https://example.com");
    let s = SelfPost::new("I love Rust!", "It's great! **Wow**!");
    assert_eq!(s.text, "It's great! **Wow**!");
}

#[test]
fn feed_queries() {
    let sub = Subreddit::create_new("all");
    let q = sub.feed_query("hot?", &ListingOptions::default());
    assert_eq!(q.stem, "/r/all/hot?limit=25&raw_json=1");
    assert_eq!(q.first, "/r/all/hot?limit=25&raw_json=1&");
    let opts = ListingOptions { batch: 5, anchor: ListingAnchor::After(String::from("t3_z")) };
    let top = Subreddit::timed_feed("top", &TimeFilter::Week);
    assert_eq!(top, "top?&t=week&");
    let q = sub.feed_query(&top, &opts);
    assert_eq!(q.first, "/r/all/top?&t=week&limit=5&raw_json=1&after=t3_z");
    assert_eq!(sub.new_stream_url(), "/r/all/new?limit=5");
}

fn flair(text: &str, id: &str) -> FlairChoice {
    FlairChoice {
        flair_css_class: String::new(),
        flair_template_id: id.to_string(),
        flair_text: text.to_string(),
        flair_position: String::from("right"),
        flair_text_editable: false,
    }
}

#[test]
fn flair_lookup_takes_first_match() {
    let list = FlairList::new(vec![flair("news", "1"), flair("tutorial", "2"), flair("tutorial", "3")]);
    assert_eq!(list.find_text("tutorial"), Some(String::from("2")));
    let list = FlairList::new(vec![flair("news", "1")]);
    assert_eq!(list.find_text("tutorial"), None);
}

#[test]
fn about_pages() {
    let about = SubredditAbout::new(SubredditAboutData {
        display_name: String::from("learnprogramming"),
        subscribers: 10,
        accounts_active: 3,
        public_traffic: true,
        created: 5,
        created_utc: 6,
    });
    assert_eq!(about.display_name(), "learnprogramming");
    assert_eq!(about.subscribers(), 10);
    assert_eq!(about.active_users(), 3);
    assert!(about.public());
    assert_eq!(about.created_utc(), 6);
    let user = UserAbout::new(UserAboutData {
        name: String::from("someone"),
        is_friend: false,
        hide_from_robots: false,
        id: String::from("eqyvc"),
        created: 1,
        created_utc: 2,
        link_karma: 40,
        comment_karma: -3,
        is_gold: false,
        is_mod: false,
        has_verified_email: true,
    });
    assert_eq!(user.id(), "eqyvc");
    assert_eq!(user.link_karma(), 40);
    assert_eq!(user.comment_karma(), -3);
    assert_eq!(user.created(), 1);
    assert_eq!(User::new("someone").name, "someone");
}

#[test]
fn commas_join() {
    assert_eq!(join_commas(&vec![]), "");
    assert_eq!(join_commas(&vec![String::from("a")]), "a");
    assert_eq!(join_commas(&vec![String::from("a"), String::from("b"), String::from("c")]), "a,b,c");
}

#[test]
fn error_descriptions() {
    let hyper_err = APIError::from(hyper::Error::Method);
    assert!(matches!(hyper_err, APIError::HyperError(_)));
    assert_eq!(hyper_err.description(), "An error occurred while processing the HTTP response");
    assert_eq!(APIError::HTTPError(500).description(), "The API returned a non-success error code");
    assert_eq!(APIError::MissingField("things[0]").description(), "This error should not have occurred. Please file a bug");
    assert_eq!(APIError::ExhaustedListing.description(), "This error should not have occurred. Please file a bug");
    assert_eq!(APIError::NotSupported("x").description(), "The operation is not supported");
}
