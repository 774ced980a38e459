use vstd::prelude::*;
use crate::responses::UserAboutData;
use crate::traits::Created;

verus! {

/// A user, by name.
pub struct User {
    /// The name of the user.
    pub name: String,
}

impl User {
    /// The user with this name.
    pub fn new(name: &str) -> (r: User)
        ensures
            r.name@ == name@,
    {
        User { name: name.to_owned() }
    }
}

/// Information about a user: karma and id.
pub struct UserAbout {
    data: UserAboutData,
}

impl UserAbout {
    pub closed spec fn data(&self) -> UserAboutData {
        self.data
    }

    /// Wraps decoded 'about' data.
    pub fn new(data: UserAboutData) -> (r: UserAbout)
        ensures
            r.data() == data,
    {
        UserAbout { data }
    }

    /// The user's link karma.
    pub fn link_karma(&self) -> (r: i64)
        ensures
            r == self.data().link_karma,
    {
        self.data.link_karma
    }

    /// The user's comment karma.
    pub fn comment_karma(&self) -> (r: i64)
        ensures
            r == self.data().comment_karma,
    {
        self.data.comment_karma
    }

    /// The user id, without kind.
    pub fn id(&self) -> (r: &str)
        ensures
            r@ == self.data().id@,
    {
        self.data.id.as_str()
    }
}

impl Created for UserAbout {
    open spec fn created_at(&self) -> i64 {
        self.data().created
    }

    open spec fn created_utc_at(&self) -> i64 {
        self.data().created_utc
    }

    fn created(&self) -> (r: i64) {
        self.data.created
    }

    fn created_utc(&self) -> (r: i64) {
        self.data.created_utc
    }
}

} // verus!
