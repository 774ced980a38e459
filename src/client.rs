use vstd::prelude::*;
use vstd::string::*;
use crate::errors::APIError;
use crate::text::{hex2, push_char, push_percent_byte};

verus! {

/// Bytes that are sent as they are: `*`, `-`, `.`, digits, letters and `_`.
pub open spec fn unreserved(b: u8) -> bool {
    b == 42 || b == 45 || b == 46 || (48 <= b <= 57) || (65 <= b <= 90) || b == 95 || (97 <= b
        <= 122)
}

/// How one byte of a UTF-8 text is written in a URL-encoded form: a space as `+`, an
/// unreserved byte as itself, anything else as `%` and two upper-case hex digits.
pub open spec fn escape_byte(b: u8) -> Seq<char> {
    if b == 32 {
        seq!['+']
    } else if unreserved(b) {
        seq![b as char]
    } else {
        seq!['%'] + hex2(b)
    }
}

pub open spec fn escape_bytes(bs: Seq<u8>) -> Seq<char>
    decreases bs.len(),
{
    if bs.len() == 0 {
        Seq::empty()
    } else {
        escape_bytes(bs.drop_last()) + escape_byte(bs.last())
    }
}

/// URL-encodes text for GET and POST requests, byte by byte of its UTF-8 encoding.
pub fn url_escape(item: &str) -> (r: String)
    ensures
        r@ == escape_bytes(item.spec_bytes()),
{
    let bytes = item.as_bytes();
    let ghost bs = item.spec_bytes();
    let mut r = String::new();
    let mut i: usize = 0;
    assert(bs.take(0) =~= Seq::<u8>::empty());
    while i < bytes.len()
        invariant
            bytes@ == bs,
            i <= bs.len(),
            r@ == escape_bytes(bs.take(i as int)),
        decreases bs.len() - i,
    {
        let b = bytes[i];
        assert(bs.take(i as int + 1).drop_last() =~= bs.take(i as int));
        assert(bs.take(i as int + 1).last() == b);
        if b == 32 {
            push_char(&mut r, '+');
        } else if b == 42 || b == 45 || b == 46 || (48 <= b && b <= 57) || (65 <= b && b <= 90)
            || b == 95 || (97 <= b && b <= 122) {
            push_char(&mut r, b as char);
        } else {
            push_percent_byte(&mut r, b);
        }
        assert(r@ =~= escape_bytes(bs.take(i as int + 1)));
        i = i + 1;
    }
    assert(bs.take(i as int) =~= bs);
    r
}

/// The host that serves requests without OAuth.
pub open spec fn api_host() -> Seq<char> {
    "https://api.reddit.com"@
}

/// The host that serves OAuth requests.
pub open spec fn oauth_host() -> Seq<char> {
    "https://oauth.reddit.com"@
}

/// The full URL of the endpoint `dest`. The OAuth host is used whenever the authenticator
/// supports OAuth or the endpoint requires it; an endpoint that requires OAuth with an
/// authenticator that does not support it is `NotSupported`.
pub fn build_url(dest: &str, oauth_required: bool, oauth_supported: bool) -> (r: Result<
    String,
    APIError,
>)
    ensures
        oauth_required && !oauth_supported <==> r is Err,
        r matches Err(e) ==> e is NotSupported,
        r matches Ok(u) ==> u@ == (if oauth_supported {
            oauth_host()
        } else {
            api_host()
        }) + dest@,
{
    if oauth_required && !oauth_supported {
        return Err(APIError::NotSupported("the endpoint requires OAuth, which the authenticator does not support"));
    }
    let mut url = if oauth_supported {
        String::from_str("https://oauth.reddit.com")
    } else {
        String::from_str("https://api.reddit.com")
    };
    url.append(dest);
    Ok(url)
}

} // verus!
