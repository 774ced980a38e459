use vstd::prelude::*;
use vstd::string::*;
use crate::text::{decimal, push_decimal};

verus! {

/// Configures a paginated listing.
pub struct ListingOptions {
    /// The largest number of items to fetch in one request.
    pub batch: u8,
    /// Where the listing starts (see `ListingAnchor`).
    pub anchor: ListingAnchor,
}

/// Anchors pagination so that a listing starts before or after an item.
pub enum ListingAnchor {
    /// All items after the given full name.
    After(String),
    /// All items before the given full name.
    Before(String),
    /// No anchor.
    NoAnchor,
}

/// Filters the top and controversial listings by time.
pub enum TimeFilter {
    Hour,
    Day,
    Week,
    Month,
    Year,
    AllTime,
}

/// The query parameter of an anchor.
pub open spec fn anchor_text(a: ListingAnchor) -> Seq<char> {
    match a {
        ListingAnchor::Before(p) => "before="@ + p@,
        ListingAnchor::After(p) => "after="@ + p@,
        ListingAnchor::NoAnchor => Seq::empty(),
    }
}

/// The name the API gives a time filter.
pub open spec fn time_name(t: TimeFilter) -> Seq<char> {
    match t {
        TimeFilter::Hour => "hour"@,
        TimeFilter::Day => "day"@,
        TimeFilter::Week => "week"@,
        TimeFilter::Month => "month"@,
        TimeFilter::Year => "year"@,
        TimeFilter::AllTime => "all"@,
    }
}

impl ListingOptions {
    /// 25 items per page, starting at the first item of the listing.
    pub fn default() -> (r: ListingOptions)
        ensures
            r.batch == 25,
            r.anchor is NoAnchor,
    {
        ListingOptions { batch: 25, anchor: ListingAnchor::NoAnchor }
    }

    /// The page size as a query parameter, e.g. `limit=25`.
    pub fn to_string(&self) -> (r: String)
        ensures
            r@ == "limit="@ + decimal(self.batch as nat),
    {
        let mut r = String::from_str("limit=");
        push_decimal(&mut r, self.batch as u64);
        r
    }
}

impl ListingAnchor {
    /// The anchor as a query parameter: `before=...`, `after=...`, or nothing.
    pub fn to_string(&self) -> (r: String)
        ensures
            r@ == anchor_text(*self),
    {
        match self {
            ListingAnchor::Before(p) => String::from_str("before=").concat(p.as_str()),
            ListingAnchor::After(p) => String::from_str("after=").concat(p.as_str()),
            ListingAnchor::NoAnchor => String::new(),
        }
    }
}

impl TimeFilter {
    /// The filter as a query parameter, e.g. `&t=all`.
    pub fn to_string(&self) -> (r: String)
        ensures
            r@ == "&t="@ + time_name(*self),
    {
        let name = match self {
            TimeFilter::Hour => "hour",
            TimeFilter::Day => "day",
            TimeFilter::Week => "week",
            TimeFilter::Month => "month",
            TimeFilter::Year => "year",
            TimeFilter::AllTime => "all",
        };
        String::from_str("&t=").concat(name)
    }
}

/// Options of a link post.
pub struct LinkPost {
    /// The title of the post.
    pub title: String,
    /// The URL to post.
    pub link: String,
    /// `true` if posting a link that was posted before is intended.
    pub resubmit: bool,
}

impl LinkPost {
    /// A link post that is not a resubmission. Nothing is sent yet.
    pub fn new(title: &str, link: &str) -> (r: LinkPost)
        ensures
            r.title@ == title@,
            r.link@ == link@,
            !r.resubmit,
    {
        LinkPost { title: title.to_owned(), link: link.to_owned(), resubmit: false }
    }

    /// Marks the post as a resubmission, so that the API accepts a link posted before.
    pub fn resubmit(self) -> (r: LinkPost)
        ensures
            r.title == self.title,
            r.link == self.link,
            r.resubmit,
    {
        let mut s = self;
        s.resubmit = true;
        s
    }
}

/// Options of a self post.
pub struct SelfPost {
    /// The title of the post.
    pub title: String,
    /// The Markdown body.
    pub text: String,
}

impl SelfPost {
    /// A self post. Nothing is sent yet.
    pub fn new(title: &str, text: &str) -> (r: SelfPost)
        ensures
            r.title@ == title@,
            r.text@ == text@,
    {
        SelfPost { title: title.to_owned(), text: text.to_owned() }
    }
}

} // verus!
