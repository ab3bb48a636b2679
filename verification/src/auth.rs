//! Names of the session cookies the surrounding web layer uses.

use vstd::prelude::*;

verus! {

/// The two cookies the authentication layer sets on a client.
#[derive(Debug, Clone, PartialEq, Eq, Structural)]
pub enum CookieName {
    RefreshToken,
    AccessToken,
}

impl CookieName {
    /// The cookie's name on the wire.
    pub fn cookie_name(&self) -> (r: &'static str)
        ensures
            self is RefreshToken ==> r@ == "refresh_token"@,
            self is AccessToken ==> r@ == "access_token"@,
    {
        match self {
            CookieName::RefreshToken => "refresh_token",
            CookieName::AccessToken => "access_token",
        }
    }
}

} // verus!
