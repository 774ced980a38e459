use vstd::prelude::*;
use vstd::string::*;
use crate::errors::APIError;
use crate::responses::ListingData;

verus! {

/// The view of an optional string.
pub open spec fn opt_view(o: Option<String>) -> Option<Seq<char>> {
    match o {
        Some(s) => Some(s@),
        None => None,
    }
}

/// Copies an optional string.
pub fn clone_opt(o: &Option<String>) -> (r: Option<String>)
    ensures
        opt_view(r) == opt_view(*o),
{
    match o {
        Some(s) => Some(s.clone()),
        None => None,
    }
}

/// A paginatable listing.
pub trait PageListing {
    spec fn before_token(&self) -> Option<Seq<char>>;

    spec fn after_token(&self) -> Option<Seq<char>>;

    spec fn modhash_token(&self) -> Option<Seq<char>>;

    /// The anchor to use when paginating to the previous page.
    fn before(&self) -> (r: Option<String>)
        ensures
            opt_view(r) == self.before_token(),
    ;

    /// The anchor to use when paginating to the next page.
    fn after(&self) -> (r: Option<String>)
        ensures
            opt_view(r) == self.after_token(),
    ;

    /// The CSRF token sent with this listing.
    fn modhash(&self) -> (r: Option<String>)
        ensures
            opt_view(r) == self.modhash_token(),
    ;
}

/// What a listing holds, as far as iteration is concerned.
pub struct PagerView<T> {
    /// Items fetched and not yet handed out, front first.
    pub buf: Seq<T>,
    /// Continuation token of the next page.
    pub after: Option<Seq<char>>,
    /// The query that continuation tokens are appended to.
    pub stem: Seq<char>,
}

/// What a step of iteration asks for.
pub enum PageStep<T> {
    /// The next item of the sequence.
    Item(T),
    /// The buffer is empty: fetch this URL and hand the page to `receive_page`.
    Fetch(String),
    /// The sequence has ended, for good.
    End,
}

pub enum StepView<T> {
    Item(T),
    Fetch(Seq<char>),
    End,
}

pub open spec fn step_view<T>(s: PageStep<T>) -> StepView<T> {
    match s {
        PageStep::Item(x) => StepView::Item(x),
        PageStep::Fetch(u) => StepView::Fetch(u@),
        PageStep::End => StepView::End,
    }
}

/// The URL of the page after `token`.
pub open spec fn after_url(stem: Seq<char>, token: Seq<char>) -> Seq<char> {
    stem + "&after="@ + token
}

/// The items of a page, in order.
pub open spec fn page_items<T>(page: ListingData<T>) -> Seq<T> {
    page.children@.map_values(|b: crate::responses::BasicThing<T>| b.data)
}

/// One step of iteration: hand out the front item; else ask for the next page; else end.
pub open spec fn step_spec<T>(v: PagerView<T>) -> (PagerView<T>, StepView<T>) {
    if v.buf.len() > 0 {
        (PagerView { buf: v.buf.drop_first(), ..v }, StepView::Item(v.buf[0]))
    } else if v.after is Some {
        (v, StepView::Fetch(after_url(v.stem, v.after->0)))
    } else {
        (v, StepView::End)
    }
}

/// A fetched page: its items are buffered and its token replaces the old one.
pub open spec fn receive_spec<T>(v: PagerView<T>, page: ListingData<T>) -> PagerView<T> {
    PagerView { buf: v.buf + page_items(page), after: opt_view(page.after), stem: v.stem }
}

/// The listing that starts from its first page.
pub open spec fn first_view<T>(stem: Seq<char>, page: ListingData<T>) -> PagerView<T> {
    PagerView { buf: page_items(page), after: opt_view(page.after), stem }
}

/// The items handed out when iteration is driven step by step and each fetch is answered
/// by the next page of `pages`, until the listing ends or no page is left to answer with.
pub open spec fn run<T>(v: PagerView<T>, pages: Seq<ListingData<T>>) -> Seq<T>
    decreases pages.len(), v.buf.len(),
{
    if v.buf.len() > 0 {
        seq![v.buf[0]] + run(step_spec(v).0, pages)
    } else if v.after is Some && pages.len() > 0 {
        run(receive_spec(v, pages[0]), pages.drop_first())
    } else {
        Seq::empty()
    }
}

/// How many fetches the same drive issues.
pub open spec fn fetches<T>(v: PagerView<T>, pages: Seq<ListingData<T>>) -> nat
    decreases pages.len(), v.buf.len(),
{
    if v.buf.len() > 0 {
        fetches(step_spec(v).0, pages)
    } else if v.after is Some && pages.len() > 0 {
        1 + fetches(receive_spec(v, pages[0]), pages.drop_first())
    } else {
        0
    }
}

proof fn lemma_fetches_skip_buffer<T>(v: PagerView<T>, pages: Seq<ListingData<T>>)
    ensures
        fetches(v, pages) == fetches(PagerView { buf: Seq::empty(), ..v }, pages),
    decreases v.buf.len(),
{
    if v.buf.len() > 0 {
        let w = step_spec(v).0;
        lemma_fetches_skip_buffer(w, pages);
        assert(PagerView { buf: Seq::<T>::empty(), ..w } == PagerView { buf: Seq::<T>::empty(), ..v });
    } else {
        assert(v.buf =~= Seq::<T>::empty());
        assert(PagerView { buf: Seq::<T>::empty(), ..v } == v);
    }
}

/// The items of all pages, page after page.
pub open spec fn all_items<T>(pages: Seq<ListingData<T>>) -> Seq<T>
    decreases pages.len(),
{
    if pages.len() == 0 {
        Seq::empty()
    } else {
        page_items(pages[0]) + all_items(pages.drop_first())
    }
}

/// Pages that chain: each but the last carries a continuation token, the last none.
pub open spec fn chained<T>(pages: Seq<ListingData<T>>) -> bool {
    &&& pages.len() > 0
    &&& forall|i: int| 0 <= i < pages.len() - 1 ==> (#[trigger] pages[i]).after is Some
    &&& pages.last().after is None
}

proof fn lemma_run_drains_buffer<T>(v: PagerView<T>, pages: Seq<ListingData<T>>)
    ensures
        run(v, pages) == v.buf + run(PagerView { buf: Seq::empty(), ..v }, pages),
    decreases v.buf.len(),
{
    if v.buf.len() > 0 {
        let w = step_spec(v).0;
        lemma_run_drains_buffer(w, pages);
        assert(PagerView { buf: Seq::<T>::empty(), ..w } == PagerView { buf: Seq::<T>::empty(), ..v });
        assert(v.buf =~= seq![v.buf[0]] + w.buf);
        assert(run(v, pages) =~= v.buf + run(PagerView { buf: Seq::empty(), ..v }, pages));
    } else {
        assert(v.buf =~= Seq::<T>::empty());
        assert(PagerView { buf: Seq::<T>::empty(), ..v } == v);
        assert(run(v, pages) =~= v.buf + run(v, pages));
    }
}

/// A listing that starts from the first of a chain of pages and has every fetch answered
/// by the next one yields the items of all pages in order, page after page, and then ends:
/// the sequence is finite and exactly as long as all pages together, and one fetch is
/// issued for each page after the first.
pub proof fn lemma_pages_in_order<T>(stem: Seq<char>, pages: Seq<ListingData<T>>)
    requires
        chained(pages),
    ensures
        run(first_view(stem, pages[0]), pages.drop_first()) == all_items(pages),
        run(first_view(stem, pages[0]), pages.drop_first()).len() == all_items(pages).len(),
        fetches(first_view(stem, pages[0]), pages.drop_first()) == pages.len() - 1,
    decreases pages.len(),
{
    let v = first_view(stem, pages[0]);
    let rest = pages.drop_first();
    let e = PagerView { buf: Seq::<T>::empty(), ..v };
    lemma_run_drains_buffer(v, rest);
    lemma_fetches_skip_buffer(v, rest);
    if pages.len() == 1 {
        assert(rest.len() == 0);
        assert(run(e, rest) == Seq::<T>::empty());
        assert(all_items(rest) == Seq::<T>::empty());
        assert(all_items(pages) =~= page_items(pages[0]));
        assert(run(v, rest) =~= all_items(pages));
    } else {
        assert(pages[0].after is Some);
        assert(chained(rest)) by {
            assert forall|i: int| 0 <= i < rest.len() - 1 implies (#[trigger] rest[i]).after is Some by {
                assert(rest[i] == pages[i + 1]);
            }
        }
        lemma_pages_in_order(stem, rest);
        assert(receive_spec(e, rest[0]) == first_view(stem, rest[0])) by {
            assert(Seq::<T>::empty() + page_items(rest[0]) =~= page_items(rest[0]));
        }
        assert(run(v, rest) =~= all_items(pages));
    }
}

/// A paginated listing, fetched lazily until it is exhausted. Items are handed out in the
/// order the server returned them, page after page.
///
/// Iteration is a loop around `next_step`: on `Item` the item is the next of the sequence;
/// on `Fetch` the caller fetches the URL and hands the page to `receive_page` (if the fetch
/// fails, the caller reports the error and the listing stays as it was); on `End` the
/// sequence has ended.
pub struct Listing<T> {
    query_stem: String,
    children: Vec<T>,
    after: Option<String>,
    before: Option<String>,
    modhash: Option<String>,
}

/// A listing of private messages.
pub type MessageListing = Listing<crate::responses::MessageData>;

impl<T> Listing<T> {
    pub closed spec fn view(&self) -> PagerView<T> {
        PagerView { buf: self.children@, after: opt_view(self.after), stem: self.query_stem@ }
    }

    /// Moves the items of a page out of their envelopes, in order.
    fn unwrap_items(page: ListingData<T>) -> (r: (Vec<T>, Option<String>, Option<String>, Option<String>))
        ensures
            r.0@ == page_items(page),
            opt_view(r.1) == opt_view(page.after),
            opt_view(r.2) == opt_view(page.before),
            opt_view(r.3) == opt_view(page.modhash),
    {
        let ghost items = page_items(page);
        let ListingData { modhash, children, after, before } = page;
        let mut rest = children;
        let mut out: Vec<T> = Vec::new();
        let ghost n0 = rest@.len();
        while rest.len() > 0
            invariant
                n0 == items.len(),
                out@.len() + rest@.len() == n0,
                out@ == items.take(out@.len() as int),
                rest@.map_values(|b: crate::responses::BasicThing<T>| b.data) == items.skip(out@.len() as int),
            decreases rest@.len(),
        {
            let ghost before_rest = rest@;
            let b = rest.remove(0);
            assert(b.data == items[out@.len() as int]) by {
                assert(before_rest.map_values(|b: crate::responses::BasicThing<T>| b.data)[0] == b.data);
            }
            out.push(b.data);
            assert(out@ =~= items.take(out@.len() as int));
            assert(rest@.map_values(|b: crate::responses::BasicThing<T>| b.data) =~= items.skip(out@.len() as int)) by {
                assert forall|j: int| 0 <= j < rest@.len() implies rest@[j].data == items[out@.len() + j] by {
                    assert(rest@[j] == before_rest[j + 1]);
                    assert(before_rest.map_values(|b: crate::responses::BasicThing<T>| b.data)[j + 1] == before_rest[j + 1].data);
                }
            }
        }
        assert(out@ =~= items);
        (out, after, before, modhash)
    }

    /// A listing that starts with its first page; `query_stem` is the query that
    /// continuation tokens are appended to.
    pub fn new(query_stem: String, data: ListingData<T>) -> (r: Listing<T>)
        ensures
            r.view() == first_view(query_stem@, data),
            r.before_token() == opt_view(data.before),
            r.modhash_token() == opt_view(data.modhash),
    {
        let (children, after, before, modhash) = Self::unwrap_items(data);
        Listing { query_stem, children, after, before, modhash }
    }

    /// The URL of the next page, or `ExhaustedListing` when there is none.
    pub fn fetch_after(&self) -> (r: Result<String, APIError>)
        ensures
            self.view().after is None <==> r is Err,
            r matches Err(e) ==> e is ExhaustedListing,
            r matches Ok(u) ==> u@ == after_url(self.view().stem, self.view().after->0),
    {
        match &self.after {
            Some(token) => {
                let mut url = self.query_stem.clone();
                url.append("&after=");
                url.append(token.as_str());
                Ok(url)
            },
            None => Err(APIError::ExhaustedListing),
        }
    }

    /// One step of iteration (see the type's documentation).
    pub fn next_step(&mut self) -> (r: PageStep<T>)
        ensures
            (final(self).view(), step_view(r)) == step_spec(old(self).view()),
            final(self).before_token() == old(self).before_token(),
            final(self).modhash_token() == old(self).modhash_token(),
    {
        if self.children.len() > 0 {
            let x = self.children.remove(0);
            assert(self.children@ =~= old(self).children@.drop_first());
            PageStep::Item(x)
        } else {
            match self.fetch_after() {
                Ok(url) => PageStep::Fetch(url),
                Err(_) => PageStep::End,
            }
        }
    }

    /// Absorbs a fetched page: its items join the buffer and its token replaces the old one.
    pub fn receive_page(&mut self, page: ListingData<T>)
        ensures
            final(self).view() == receive_spec(old(self).view(), page),
            final(self).before_token() == old(self).before_token(),
            final(self).modhash_token() == old(self).modhash_token(),
    {
        let (mut items, after, _before, _modhash) = Self::unwrap_items(page);
        self.children.append(&mut items);
        self.after = after;
    }
}

impl<T> PageListing for Listing<T> {
    closed spec fn before_token(&self) -> Option<Seq<char>> {
        opt_view(self.before)
    }

    open spec fn after_token(&self) -> Option<Seq<char>> {
        self.view().after
    }

    closed spec fn modhash_token(&self) -> Option<Seq<char>> {
        opt_view(self.modhash)
    }

    fn before(&self) -> (r: Option<String>) {
        clone_opt(&self.before)
    }

    fn after(&self) -> (r: Option<String>) {
        clone_opt(&self.after)
    }

    fn modhash(&self) -> (r: Option<String>) {
        clone_opt(&self.modhash)
    }
}

} // verus!
