use rawr::errors::APIError;
use rawr::listing::{Listing, PageListing, PageStep};
use rawr::responses::{BasicThing, ListingData};

fn page(items: &[u32], after: Option<&str>) -> ListingData<u32> {
    ListingData {
        modhash: None,
        children: items.iter().map(|&i| BasicThing { kind: String::from("t3"), data: i }).collect(),
        after: after.map(|a| a.to_string()),
        before: None,
    }
}

/// Drives a listing, answering each fetch with the next page, and records the URLs asked.
fn drive(mut listing: Listing<u32>, mut pages: Vec<ListingData<u32>>, limit: usize) -> (Vec<u32>, Vec<String>) {
    let mut items = Vec::new();
    let mut urls = Vec::new();
    while items.len() < limit {
        match listing.next_step() {
            PageStep::Item(x) => items.push(x),
            PageStep::Fetch(url) => {
                urls.push(url);
                if pages.is_empty() {
                    break;
                }
                listing.receive_page(pages.remove(0));
            }
            PageStep::End => break,
        }
    }
    (items, urls)
}

#[test]
fn pages_are_yielded_in_order() {
    let listing = Listing::new(String::from("/r/all/hot?limit=3&raw_json=1"), page(&[1, 2, 3], Some("t3_c")));
    let (items, urls) = drive(listing, vec![page(&[4, 5], Some("t3_e")), page(&[6], None)], 100);
    assert_eq!(items, vec![1, 2, 3, 4, 5, 6]);
    assert_eq!(urls, vec!["/r/all/hot?limit=3&raw_json=1&after=t3_c", "/r/all/hot?limit=3&raw_json=1&after=t3_e"]);
}

#[test]
fn last_page_ends_the_sequence() {
    let listing = Listing::new(String::from("/q"), page(&[1, 2], Some("a")));
    let (items, urls) = drive(listing, vec![page(&[], Some("b")), page(&[3, 4, 5], None), page(&[9], None)], 100);
    assert_eq!(items.len(), 5);
    assert_eq!(items, vec![1, 2, 3, 4, 5]);
    assert_eq!(urls.len(), 2);
}

#[test]
fn ended_listing_stays_ended() {
    let mut listing = Listing::new(String::from("/q"), page(&[7], None));
    assert!(matches!(listing.next_step(), PageStep::Item(7)));
    assert!(matches!(listing.next_step(), PageStep::End));
    assert!(matches!(listing.next_step(), PageStep::End));
    assert!(matches!(listing.fetch_after(), Err(APIError::ExhaustedListing)));
}

#[test]
fn failed_fetch_leaves_listing_unchanged() {
    let mut listing = Listing::new(String::from("/q"), page(&[], Some("a")));
    for _ in 0..2 {
        match listing.next_step() {
            PageStep::Fetch(url) => assert_eq!(url, "/q&after=a"),
            _ => panic!("expected a fetch"),
        }
    }
    listing.receive_page(page(&[1], None));
    assert!(matches!(listing.next_step(), PageStep::Item(1)));
}

#[test]
fn tokens_are_exposed() {
    let mut data = page(&[1], Some("t3_next"));
    data.before = Some(String::from("t3_prev"));
    data.modhash = Some(String::from("m"));
    let listing = Listing::new(String::from("/q"), data);
    assert_eq!(listing.after(), Some(String::from("t3_next")));
    assert_eq!(listing.before(), Some(String::from("t3_prev")));
    assert_eq!(listing.modhash(), Some(String::from("m")));
    assert_eq!(listing.fetch_after().ok(), Some(String::from("/q&after=t3_next")));
}

#[test]
fn hot_length() {
    let first: Vec<u32> = (0..25).collect();
    let second: Vec<u32> = (25..50).collect();
    let listing = Listing::new(String::from("/r/all/hot?limit=25&raw_json=1"), page(&first, Some("t3_x")));
    let (hot_list, _) = drive(listing, vec![page(&second, None)], 26);
    assert_eq!(hot_list.len() as usize, 26);
}
