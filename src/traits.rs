use vstd::prelude::*;

verus! {

/// An object with a full name (kind and identifier, e.g. `t3_4uule8`).
pub trait Content {
    spec fn full_name(&self) -> Seq<char>;

    /// The full name of this object.
    fn name(&self) -> (r: &str)
        ensures
            r@ == self.full_name(),
    ;
}

/// An object that was created at some point (a subreddit, a submission, a comment...).
pub trait Created {
    spec fn created_at(&self) -> i64;

    spec fn created_utc_at(&self) -> i64;

    /// Creation timestamp, as shown to the logged-in user.
    fn created(&self) -> (r: i64)
        ensures
            r == self.created_at(),
    ;

    /// Creation timestamp, in UTC.
    fn created_utc(&self) -> (r: i64)
        ensures
            r == self.created_utc_at(),
    ;
}

} // verus!
