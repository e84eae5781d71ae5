//! The user model: a creation request carrying a username, and the user
//! that the service fabricates for it. There is no store and no counter;
//! every created user gets the same fixed identifier.

use vstd::prelude::*;

verus! {

/// The identifier assigned to every created user.
pub const USER_ID: u64 = 1337;

/// A request to create a user. The username is kept as its UTF-8 bytes;
/// no validation and no length bound is imposed.
pub struct CreateUser {
    pub username: Vec<u8>,
}

/// A created user: the fixed identifier together with the username
/// echoed verbatim from the request.
pub struct User {
    pub id: u64,
    pub username: Vec<u8>,
}

/// Fabricate the user for a creation request: the identifier is always
/// `USER_ID` and the username is taken over unchanged.
pub fn create_user(req: CreateUser) -> (u: User)
    ensures
        u.id == USER_ID,
        u.username@ == req.username@,
{
    User { id: USER_ID, username: req.username }
}

} // verus!
