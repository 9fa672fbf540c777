//! The user record: the one resource the service exposes.
use vstd::prelude::*;

verus! {

/// Mathematical view of a user record: an optional id and the two
/// text fields as character sequences.
pub ghost struct UserView {
    pub id: Option<int>,
    pub name: Seq<char>,
    pub email: Seq<char>,
}

/// A user record as it crosses the wire: the id is absent on a create
/// request and assigned by the store.
#[derive(Clone, Debug, PartialEq)]
pub struct User {
    pub id: Option<i32>,
    pub name: String,
    pub email: String,
}

impl View for User {
    type V = UserView;

    open spec fn view(&self) -> UserView {
        UserView {
            id: match self.id {
                Some(n) => Some(n as int),
                None => None,
            },
            name: self.name@,
            email: self.email@,
        }
    }
}

impl UserView {
    /// The id, when present, fits in a 32-bit signed integer.
    pub open spec fn id_in_range(self) -> bool {
        match self.id {
            Some(n) => i32::MIN <= n <= i32::MAX,
            None => true,
        }
    }
}

} // verus!
