use rawr::messages::{MarkStep, Message, MessageStream};
use rawr::responses::{Edited, MessageData, SubmissionData};
use rawr::stream::{PostStream, StreamStep};
use rawr::submission::Submission;
use rawr::traits::Content;

fn post(name: &str) -> Submission {
    Submission::new(SubmissionData {
        id: name.trim_start_matches("t3_").to_string(),
        name: name.to_string(),
        title: format!("title of {}", name),
        is_self: true,
        url: None,
        over_18: false,
        selftext: String::new(),
        selftext_html: None,
        score: 0,
        likes: None,
        created: 0,
        created_utc: 0,
        edited: Edited::Flag(false),
        author: String::from("someone"),
        author_flair_text: None,
        author_flair_css_class: None,
        subreddit: String::from("rust"),
        num_comments: 0,
        stickied: false,
        locked: false,
        hidden: false,
        distinguished: None,
        num_reports: None,
        link_flair_text: None,
        link_flair_css_class: None,
    })
}

fn posts(names: &[String]) -> Vec<Submission> {
    names.iter().map(|n| post(n)).collect()
}

/// Pulls from the stream until it asks for a poll, returning what it yielded.
fn pull(stream: &mut PostStream) -> Vec<String> {
    let mut out = Vec::new();
    loop {
        match stream.next_step() {
            StreamStep::Yield(s) => out.push(s.name().to_string()),
            StreamStep::Poll(_) => return out,
        }
    }
}

fn names(range: std::ops::Range<u32>) -> Vec<String> {
    range.map(|i| format!("t3_{}", i)).collect()
}

#[test]
fn poll_is_yielded_oldest_first() {
    let mut stream = PostStream::new(String::from("/r/rust/new?limit=5"));
    match stream.next_step() {
        StreamStep::Poll(url) => assert_eq!(url, "/r/rust/new?limit=5"),
        _ => panic!("expected a poll"),
    }
    stream.receive_poll(posts(&[String::from("t3_c"), String::from("t3_b"), String::from("t3_a")]));
    assert_eq!(pull(&mut stream), vec!["t3_a", "t3_b", "t3_c"]);
}

#[test]
fn repeated_items_are_suppressed() {
    let mut stream = PostStream::new(String::from("/u"));
    stream.receive_poll(posts(&[String::from("t3_b"), String::from("t3_a")]));
    assert_eq!(pull(&mut stream), vec!["t3_a", "t3_b"]);
    stream.receive_poll(posts(&[String::from("t3_c"), String::from("t3_b"), String::from("t3_a")]));
    assert_eq!(pull(&mut stream), vec!["t3_c"]);
    stream.receive_poll(posts(&[String::from("t3_a"), String::from("t3_a")]));
    assert_eq!(pull(&mut stream), Vec::<String>::new());
}

#[test]
fn name_returns_after_ten_newer_ones() {
    let mut stream = PostStream::new(String::from("/u"));
    stream.receive_poll(posts(&[String::from("t3_0")]));
    assert_eq!(pull(&mut stream), vec!["t3_0"]);
    // nine newer names: t3_0 is still remembered
    let mut nine = names(1..10);
    nine.reverse();
    stream.receive_poll(posts(&nine));
    assert_eq!(pull(&mut stream).len(), 9);
    stream.receive_poll(posts(&[String::from("t3_0")]));
    assert_eq!(pull(&mut stream), Vec::<String>::new());
    // a tenth newer name pushes it out of the window
    stream.receive_poll(posts(&[String::from("t3_10")]));
    assert_eq!(pull(&mut stream), vec!["t3_10"]);
    stream.receive_poll(posts(&[String::from("t3_0")]));
    assert_eq!(pull(&mut stream), vec!["t3_0"]);
}

fn message(name: &str) -> Message {
    Message::new(MessageData {
        author: None,
        body: String::from("hi"),
        body_html: String::from("<p>hi</p>"),
        context: String::new(),
        first_message_name: None,
        likes: None,
        name: name.to_string(),
        link_title: None,
        parent_id: None,
        subject: String::from("subject"),
        subreddit: None,
        was_comment: false,
        created: 0,
        created_utc: 0,
    })
}

#[test]
fn message_is_yielded_only_after_marking_succeeds() {
    let mut stream = MessageStream::new(String::from("/message/unread?limit=5"));
    match stream.next_step() {
        MarkStep::Poll(url) => assert_eq!(url, "/message/unread?limit=5"),
        _ => panic!("expected a poll"),
    }
    stream.receive_poll(vec![message("t4_b"), message("t4_a")]);
    for _ in 0..3 {
        match stream.next_step() {
            MarkStep::MarkRead(n) => assert_eq!(n, "t4_a"),
            _ => panic!("expected marking"),
        }
        assert!(stream.mark_result(false).is_none());
    }
    match stream.next_step() {
        MarkStep::MarkRead(n) => assert_eq!(n, "t4_a"),
        _ => panic!("expected marking"),
    }
    let m = stream.mark_result(true).expect("marked message is handed out");
    assert_eq!(m.name(), "t4_a");
    match stream.next_step() {
        MarkStep::MarkRead(n) => assert_eq!(n, "t4_b"),
        _ => panic!("expected marking"),
    }
}

#[test]
fn message_defaults() {
    let m = message("t4_a");
    assert_eq!(m.author_name(), "reddit");
    assert_eq!(m.subreddit_name(), "all");
    assert_eq!(m.parent_id(), None);
}

#[test]
fn submission_getters() {
    let mut p = post("t3_abc");
    assert_eq!(p.title(), "title of t3_abc");
    assert!(p.is_self_post());
    assert_eq!(p.body(), None);
    p.data.selftext = String::from("hello");
    assert_eq!(p.body(), Some(String::from("hello")));
    assert_eq!(p.link_url(), None);
    p.data.url = Some(String::from("https://example.com"));
    assert_eq!(p.link_url(), Some(String::from("https://example.com")));
    assert!(!p.nsfw());
    p.data.num_comments = 12;
    assert_eq!(p.reply_count(), 12);
    assert_eq!(p.score(), 0);
    assert!(!p.edited());
    p.data.edited = Edited::Time(None);
    assert!(p.edited());
    assert_eq!(p.edited_time(), None);
}
