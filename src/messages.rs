use vstd::prelude::*;
use vstd::string::*;
use crate::listing::{clone_opt, opt_view};
use crate::responses::MessageData;
use crate::traits::{Content, Created};

verus! {

/// A private message.
pub struct Message {
    pub data: MessageData,
}

impl Message {
    /// Wraps decoded message data.
    pub fn new(data: MessageData) -> (r: Message)
        ensures
            r.data == data,
    {
        Message { data }
    }

    /// The full name of the parent of this message, if any.
    pub fn parent_id(&self) -> (r: Option<String>)
        ensures
            opt_view(r) == opt_view(self.data.parent_id),
    {
        clone_opt(&self.data.parent_id)
    }

    /// The name of the author; messages without one come from `reddit`.
    pub fn author_name(&self) -> (r: String)
        ensures
            self.data.author matches Some(a) ==> r@ == a@,
            self.data.author is None ==> r@ == "reddit"@,
    {
        match &self.data.author {
            Some(a) => a.clone(),
            None => String::from_str("reddit"),
        }
    }

    /// The subreddit of this message; messages without one belong to `all`.
    pub fn subreddit_name(&self) -> (r: String)
        ensures
            self.data.subreddit matches Some(s) ==> r@ == s@,
            self.data.subreddit is None ==> r@ == "all"@,
    {
        match &self.data.subreddit {
            Some(s) => s.clone(),
            None => String::from_str("all"),
        }
    }
}

impl Content for Message {
    open spec fn full_name(&self) -> Seq<char> {
        self.data.name@
    }

    fn name(&self) -> (r: &str) {
        self.data.name.as_str()
    }
}

impl Created for Message {
    open spec fn created_at(&self) -> i64 {
        self.data.created
    }

    open spec fn created_utc_at(&self) -> i64 {
        self.data.created_utc
    }

    fn created(&self) -> (r: i64) {
        self.data.created
    }

    fn created_utc(&self) -> (r: i64) {
        self.data.created_utc
    }
}

/// What the stream of unread messages asks for next.
pub enum MarkStep {
    /// Mark the message with this full name as read and report the outcome to
    /// `mark_result`; the message is handed out once marking succeeded.
    MarkRead(String),
    /// Nothing is buffered: wait, fetch this URL and hand the items, newest first, to
    /// `receive_poll`.
    Poll(String),
}

/// A stream of unread messages, oldest first within each poll. Each message is marked as
/// read before it is handed out; marking is retried until it succeeds, so progress waits
/// on it. The stream never ends by itself.
pub struct MessageStream {
    url: String,
    batch: Vec<Message>,
    awaiting: Option<Message>,
}

impl MessageStream {
    pub closed spec fn poll_url(&self) -> Seq<char> {
        self.url@
    }

    /// Messages polled and not yet taken up, oldest first.
    pub closed spec fn buffered(&self) -> Seq<Message> {
        self.batch@
    }

    /// The message being marked as read, if any.
    pub closed spec fn marking(&self) -> Option<Message> {
        self.awaiting
    }

    /// A stream that polls `url`.
    pub fn new(url: String) -> (r: MessageStream)
        ensures
            r.poll_url() == url@,
            r.buffered() == Seq::<Message>::empty(),
            r.marking() is None,
    {
        MessageStream { url, batch: Vec::new(), awaiting: None }
    }

    /// One step: keep marking the message being marked; else take up the oldest buffered
    /// message and mark it; else poll.
    pub fn next_step(&mut self) -> (r: MarkStep)
        ensures
            final(self).poll_url() == old(self).poll_url(),
            old(self).marking() matches Some(m) ==> {
                &&& r matches MarkStep::MarkRead(n) && n@ == m.data.name@
                &&& final(self).marking() == old(self).marking()
                &&& final(self).buffered() == old(self).buffered()
            },
            old(self).marking() is None && old(self).buffered().len() > 0 ==> {
                &&& r matches MarkStep::MarkRead(n) && n@ == old(self).buffered()[0].data.name@
                &&& final(self).marking() == Some(old(self).buffered()[0])
                &&& final(self).buffered() == old(self).buffered().drop_first()
            },
            old(self).marking() is None && old(self).buffered().len() == 0 ==> {
                &&& r matches MarkStep::Poll(u) && u@ == old(self).poll_url()
                &&& final(self).marking() is None
                &&& final(self).buffered() == old(self).buffered()
            },
    {
        if self.awaiting.is_none() && self.batch.len() > 0 {
            let m = self.batch.remove(0);
            assert(self.batch@ =~= old(self).batch@.drop_first());
            self.awaiting = Some(m);
        }
        match &self.awaiting {
            Some(m) => MarkStep::MarkRead(m.data.name.clone()),
            None => MarkStep::Poll(self.url.clone()),
        }
    }

    /// Reports whether marking succeeded: on success the message is handed out; on failure
    /// it stays, to be marked again.
    pub fn mark_result(&mut self, ok: bool) -> (r: Option<Message>)
        ensures
            final(self).poll_url() == old(self).poll_url(),
            final(self).buffered() == old(self).buffered(),
            ok ==> r == old(self).marking() && final(self).marking() is None,
            !ok ==> r is None && final(self).marking() == old(self).marking(),
    {
        if ok {
            self.awaiting.take()
        } else {
            None
        }
    }

    /// Buffers the items of a poll, given newest first, so that they are taken up oldest
    /// first.
    pub fn receive_poll(&mut self, newest_first: Vec<Message>)
        ensures
            final(self).poll_url() == old(self).poll_url(),
            final(self).marking() == old(self).marking(),
            final(self).buffered() == old(self).buffered() + newest_first@.reverse(),
    {
        let ghost items = newest_first@;
        let mut rest = newest_first;
        assert(items.take(items.len() as int) =~= items);
        assert(items.skip(items.len() as int).reverse() =~= Seq::<Message>::empty());
        assert(self.batch@ + Seq::<Message>::empty() =~= self.batch@);
        while rest.len() > 0
            invariant
                self.url == old(self).url,
                self.awaiting == old(self).awaiting,
                rest@.len() <= items.len(),
                rest@ == items.take(rest@.len() as int),
                self.batch@ == old(self).batch@ + items.skip(rest@.len() as int).reverse(),
            decreases rest@.len(),
        {
            let ghost n = rest@.len();
            let x = rest.pop().unwrap();
            assert(x == items[n - 1]);
            self.batch.push(x);
            assert(rest@ =~= items.take(rest@.len() as int));
            proof {
                crate::stream::lemma_reverse_skip(items, n as int);
            }
            assert(self.batch@ =~= old(self).batch@ + items.skip(rest@.len() as int).reverse());
        }
        assert(items.skip(0) =~= items);
    }
}

} // verus!
