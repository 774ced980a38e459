use std::collections::VecDeque;
use vstd::prelude::*;
use crate::comment_list::Comment;
use crate::submission::Submission;
use crate::traits::Content;

verus! {

/// How many recently handed-out full names a stream remembers.
pub const WINDOW: usize = 10;

/// How many of the newest comments one poll of a comment stream takes.
pub const POLL_COMMENTS: usize = 5;

/// What a polling stream asks for next.
pub enum StreamStep<T> {
    /// The next new item.
    Yield(T),
    /// Nothing new is buffered: wait the polling interval, fetch this URL and hand the
    /// items, newest first as the server sends them, to `receive_poll`. A failed fetch
    /// is simply followed by the next step.
    Poll(String),
}

/// The last `WINDOW` entries of `h` (all of them when there are fewer).
pub open spec fn recent(h: Seq<Seq<char>>) -> Seq<Seq<char>> {
    if h.len() <= WINDOW {
        h
    } else {
        h.skip(h.len() - WINDOW)
    }
}

/// No two entries of `h` that are at most `WINDOW` positions apart are equal.
pub open spec fn spaced(h: Seq<Seq<char>>) -> bool {
    forall|i: int, j: int| 0 <= i < j < h.len() && j - i <= WINDOW ==> h[i] != h[j]
}

/// How many items at the front of `batch` are skipped because their names are in `seen`.
pub open spec fn seen_prefix<T: Content>(seen: Seq<Seq<char>>, batch: Seq<T>) -> nat
    decreases batch.len(),
{
    if batch.len() > 0 && seen.contains(batch[0].full_name()) {
        1 + seen_prefix(seen, batch.drop_first())
    } else {
        0
    }
}

pub proof fn lemma_reverse_skip<T>(items: Seq<T>, n: int)
    requires
        0 < n <= items.len(),
    ensures
        items.skip(n - 1).reverse() =~= items.skip(n).reverse().push(items[n - 1]),
{
    let a = items.skip(n - 1);
    let b = items.skip(n);
    assert forall|i: int| 0 <= i < a.len() implies #[trigger] a.reverse()[i] == b.reverse().push(items[n - 1])[i] by {
        if i < b.len() {
            assert(a.reverse()[i] == a[a.len() - 1 - i]);
            assert(b.reverse()[i] == b[b.len() - 1 - i]);
        } else {
            assert(a.reverse()[i] == a[0]);
        }
    }
}

/// An endless stream of new items that polls a listing, handing each full name out at
/// most once while it is among the last `WINDOW` handed out.
///
/// The stream is a loop around `next_step`: on `Yield` the item is the next new one; on
/// `Poll` the caller sleeps, fetches and calls `receive_poll`. It never ends by itself.
pub struct DedupStream<T> {
    url: String,
    seen: VecDeque<String>,
    batch: Vec<T>,
    history: Ghost<Seq<Seq<char>>>,
}

/// A stream of new posts in a subreddit.
pub type PostStream = DedupStream<Submission>;

/// A stream of new comments on a submission.
pub type CommentStream = DedupStream<Comment>;

impl<T: Content> DedupStream<T> {
    /// The full names remembered, oldest first.
    pub closed spec fn window(&self) -> Seq<Seq<char>> {
        self.seen@.map_values(|s: String| s@)
    }

    /// Every full name handed out so far, in order.
    pub closed spec fn yielded(&self) -> Seq<Seq<char>> {
        self.history@
    }

    /// Items polled and not yet considered, oldest first.
    pub closed spec fn buffered(&self) -> Seq<T> {
        self.batch@
    }

    pub closed spec fn poll_url(&self) -> Seq<char> {
        self.url@
    }

    /// The window holds the last `WINDOW` names handed out, oldest first, and no name was
    /// handed out twice within `WINDOW` positions.
    pub open spec fn wf(&self) -> bool {
        &&& self.window() == recent(self.yielded())
        &&& spaced(self.yielded())
    }

    /// A stream that polls `url`, having handed out nothing yet.
    pub fn new(url: String) -> (r: DedupStream<T>)
        ensures
            r.wf(),
            r.poll_url() == url@,
            r.yielded() == Seq::<Seq<char>>::empty(),
            r.buffered() == Seq::<T>::empty(),
    {
        let r = DedupStream { url, seen: VecDeque::new(), batch: Vec::new(), history: Ghost(Seq::empty()) };
        assert(r.window() =~= Seq::<Seq<char>>::empty());
        r
    }

    fn remembers(&self, name: &String) -> (r: bool)
        ensures
            r == self.window().contains(name@),
    {
        let mut i: usize = 0;
        while i < self.seen.len()
            invariant
                i <= self.seen@.len(),
                forall|j: int| 0 <= j < i ==> self.window()[j] != name@,
            decreases self.seen@.len() - i,
        {
            if self.seen[i] == *name {
                assert(self.window()[i as int] == name@);
                return true;
            }
            i = i + 1;
        }
        false
    }

    /// One step of the stream: the first buffered item whose name is not remembered is
    /// handed out and remembered (forgetting the oldest name beyond `WINDOW`); the items
    /// before it are dropped. With no such item the buffer is emptied and a poll is asked for.
    pub fn next_step(&mut self) -> (r: StreamStep<T>)
        requires
            old(self).wf(),
        ensures
            final(self).wf(),
            final(self).poll_url() == old(self).poll_url(),
            ({
                let k = seen_prefix(old(self).window(), old(self).buffered());
                if k < old(self).buffered().len() {
                    &&& r == StreamStep::Yield(old(self).buffered()[k as int])
                    &&& final(self).buffered() == old(self).buffered().skip(k + 1 as int)
                    &&& final(self).yielded() == old(self).yielded().push(
                        old(self).buffered()[k as int].full_name(),
                    )
                } else {
                    &&& r matches StreamStep::Poll(u) && u@ == old(self).poll_url()
                    &&& final(self).buffered() == Seq::<T>::empty()
                    &&& final(self).yielded() == old(self).yielded()
                }
            }),
    {
        let ghost w = old(self).window();
        let ghost b0 = old(self).batch@;
        let ghost mut dropped: nat = 0;
        while self.batch.len() > 0
            invariant
                self.wf(),
                self.window() == w,
                w == old(self).window(),
                b0 == old(self).batch@,
                self.url == old(self).url,
                self.history == old(self).history,
                dropped <= b0.len(),
                self.batch@ == b0.skip(dropped as int),
                seen_prefix(w, b0) == dropped + seen_prefix(w, self.batch@),
            decreases self.batch@.len(),
        {
            let ghost before = self.batch@;
            let x = self.batch.remove(0);
            let name = x.name().to_owned();
            assert(name@ == x.full_name());
            assert(before.drop_first() =~= self.batch@);
            assert(before[0] == x);
            if self.remembers(&name) {
                proof {
                    dropped = dropped + 1;
                }
                assert(self.batch@ =~= b0.skip(dropped as int));
            } else {
                assert(seen_prefix(w, before) == 0);
                let ghost h = self.history@;
                let ghost s0 = self.seen@;
                assert(s0.len() == recent(h).len());
                self.seen.push_back(name);
                assert(self.window() =~= recent(h).push(x.full_name()));
                if self.seen.len() > WINDOW {
                    self.seen.pop_front();
                    assert(self.window() =~= recent(h).push(x.full_name()).drop_first());
                }
                self.history = Ghost(h.push(x.full_name()));
                proof {
                    if h.len() < WINDOW {
                        assert(self.window() =~= recent(self.history@));
                    } else {
                        assert(recent(h).push(x.full_name()).drop_first() =~= recent(self.history@));
                    }
                    assert forall|i: int, j: int|
                        0 <= i < j < self.history@.len() && j - i <= WINDOW implies self.history@[i]
                        != self.history@[j] by {
                        if j == h.len() {
                            assert(recent(h).contains(h[i])) by {
                                if h.len() <= WINDOW {
                                    assert(recent(h)[i] == h[i]);
                                } else {
                                    assert(recent(h)[i - (h.len() - WINDOW)] == h[i]);
                                }
                            }
                        } else {
                            assert(self.history@[i] == h[i] && self.history@[j] == h[j]);
                        }
                    }
                    assert(b0[dropped as int] == x);
                    assert(self.batch@ =~= b0.skip(dropped + 1 as int));
                }
                return StreamStep::Yield(x);
            }
        }
        assert(seen_prefix(w, self.batch@) == 0);
        StreamStep::Poll(self.url.clone())
    }

    /// Buffers the items of a poll, given newest first, so that they are considered oldest
    /// first.
    pub fn receive_poll(&mut self, newest_first: Vec<T>)
        requires
            old(self).wf(),
        ensures
            final(self).wf(),
            final(self).poll_url() == old(self).poll_url(),
            final(self).yielded() == old(self).yielded(),
            final(self).buffered() == old(self).buffered() + newest_first@.reverse(),
    {
        let ghost items = newest_first@;
        assert(items.take(items.len() as int) =~= items);
        assert(items.skip(items.len() as int).reverse() =~= Seq::<T>::empty());
        assert(self.batch@ + Seq::<T>::empty() =~= self.batch@);
        let mut rest = newest_first;
        let ghost b0 = self.batch@;
        while rest.len() > 0
            invariant
                self.wf(),
                self.url == old(self).url,
                self.history == old(self).history,
                rest@.len() <= items.len(),
                items == newest_first@,
                b0 == old(self).batch@,
                rest@ == items.take(rest@.len() as int),
                self.batch@ == b0 + items.skip(rest@.len() as int).reverse(),
            decreases rest@.len(),
        {
            let ghost n = rest@.len();
            let x = rest.pop().unwrap();
            assert(x == items[n - 1]);
            self.batch.push(x);
            assert(rest@ =~= items.take(rest@.len() as int));
            proof {
                lemma_reverse_skip(items, n as int);
            }
            assert(self.batch@ =~= b0 + items.skip(rest@.len() as int).reverse());
        }
        assert(items.skip(0) =~= items);
    }
}

impl<T: Content> DedupStream<T> {
    /// A full name is never handed out twice while it is among the last `WINDOW` handed
    /// out: when it comes again, more than `WINDOW` items lie between the two, and the
    /// `WINDOW` handed out right after the first are pairwise distinct and distinct from it.
    pub proof fn lemma_no_repeat_in_window(&self, i: int, j: int)
        requires
            self.wf(),
            0 <= i < j < self.yielded().len(),
            self.yielded()[i] == self.yielded()[j],
        ensures
            j - i > WINDOW,
            forall|a: int, b: int|
                i <= a < b <= i + WINDOW ==> self.yielded()[a] != self.yielded()[b],
    {
        let h = self.yielded();
        assert forall|a: int, b: int| i <= a < b <= i + WINDOW implies h[a] != h[b] by {
            assert(b < h.len());
        }
    }
}

} // verus!
