use vstd::prelude::*;
use crate::listing::opt_view;
use crate::listing::clone_opt;
use crate::responses::{Edited, FlairChoice, SubmissionData};
use crate::traits::{Content, Created};

verus! {

/// A link post or self post.
pub struct Submission {
    pub data: SubmissionData,
}

impl Submission {
    /// Wraps decoded submission data.
    pub fn new(data: SubmissionData) -> (r: Submission)
        ensures
            r.data == data,
    {
        Submission { data }
    }

    /// The title of the post.
    pub fn title(&self) -> (r: &str)
        ensures
            r@ == self.data.title@,
    {
        self.data.title.as_str()
    }

    /// `true` for a self post, `false` for a link post.
    pub fn is_self_post(&self) -> (r: bool)
        ensures
            r == self.data.is_self,
    {
        self.data.is_self
    }

    /// The URL a link post points to.
    pub fn link_url(&self) -> (r: Option<String>)
        ensures
            opt_view(r) == opt_view(self.data.url),
    {
        clone_opt(&self.data.url)
    }

    /// `true` if the post is marked NSFW (over 18).
    pub fn nsfw(&self) -> (r: bool)
        ensures
            r == self.data.over_18,
    {
        self.data.over_18
    }

    /// The self text, or `None` when it is empty (as for link posts).
    pub fn body(&self) -> (r: Option<String>)
        ensures
            self.data.selftext@.len() == 0 ==> r is None,
            self.data.selftext@.len() > 0 ==> opt_view(r) == Some(self.data.selftext@),
    {
        if self.data.selftext.as_str().unicode_len() == 0 {
            None
        } else {
            Some(self.data.selftext.clone())
        }
    }

    /// The number of comments on this post.
    pub fn reply_count(&self) -> (r: u64)
        ensures
            r == self.data.num_comments,
    {
        self.data.num_comments
    }

    /// The (fuzzed) points score.
    pub fn score(&self) -> (r: i64)
        ensures
            r == self.data.score,
    {
        self.data.score
    }

    /// `true` unless the API said the post was not edited.
    pub fn edited(&self) -> (r: bool)
        ensures
            r == !(self.data.edited matches Edited::Flag(b) && !b),
    {
        self.data.edited.edited()
    }

    /// The edit timestamp, when the API sent one.
    pub fn edited_time(&self) -> (r: Option<i64>)
        ensures
            r == (match self.data.edited {
                Edited::Flag(_) => None,
                Edited::Time(t) => t,
            }),
    {
        self.data.edited.edited_time()
    }
}

impl Content for Submission {
    open spec fn full_name(&self) -> Seq<char> {
        self.data.name@
    }

    fn name(&self) -> (r: &str) {
        self.data.name.as_str()
    }
}

impl Created for Submission {
    open spec fn created_at(&self) -> i64 {
        self.data.created
    }

    open spec fn created_utc_at(&self) -> i64 {
        self.data.created_utc
    }

    fn created(&self) -> (r: i64) {
        self.data.created
    }

    fn created_utc(&self) -> (r: i64) {
        self.data.created_utc
    }
}

/// The position of the first flair whose text is `text`, if any.
pub open spec fn first_with_text(flairs: Seq<FlairChoice>, text: Seq<char>) -> Option<int>
    decreases flairs.len(),
{
    if flairs.len() == 0 {
        None
    } else {
        match first_with_text(flairs.drop_last(), text) {
            Some(i) => Some(i),
            None => if flairs.last().flair_text@ == text {
                Some(flairs.len() - 1)
            } else {
                None
            },
        }
    }
}

/// A list of flairs that can be assigned to a post.
pub struct FlairList {
    /// The flairs available.
    pub flairs: Vec<FlairChoice>,
}

impl FlairList {
    /// Creates a `FlairList` from the choices offered.
    pub fn new(choices: Vec<FlairChoice>) -> (r: FlairList)
        ensures
            r.flairs@ == choices@,
    {
        FlairList { flairs: choices }
    }

    /// The template id of the first flair with the given text, consuming the list.
    pub fn find_text(self, text: &str) -> (r: Option<String>)
        ensures
            first_with_text(self.flairs@, text@) is None <==> r is None,
            r matches Some(id) ==> id@ == self.flairs@[first_with_text(
                self.flairs@,
                text@,
            )->0].flair_template_id@,
    {
        let ghost all = self.flairs@;
        let wanted = text.to_owned();
        let mut i: usize = 0;
        while i < self.flairs.len()
            invariant
                all == self.flairs@,
                i <= all.len(),
                first_with_text(all.take(i as int), text@) is None,
                wanted@ == text@,
            decreases all.len() - i,
        {
            assert(all.take(i as int + 1).drop_last() =~= all.take(i as int));
            if self.flairs[i].flair_text == wanted {
                proof {
                    lemma_first_with_text_prefix(all, text@, i as int + 1, i as int);
                }
                return Some(self.flairs[i].flair_template_id.clone());
            }
            i = i + 1;
        }
        assert(all.take(i as int) =~= all);
        None
    }
}

proof fn lemma_first_with_text_prefix(flairs: Seq<FlairChoice>, text: Seq<char>, n: int, i: int)
    requires
        0 < n <= flairs.len(),
        first_with_text(flairs.take(n), text) == Some(i),
    ensures
        first_with_text(flairs, text) == Some(i),
    decreases flairs.len() - n,
{
    if n < flairs.len() {
        assert(flairs.take(n + 1).drop_last() =~= flairs.take(n));
        lemma_first_with_text_prefix(flairs, text, n + 1, i);
    } else {
        assert(flairs.take(n) =~= flairs);
    }
}

} // verus!
