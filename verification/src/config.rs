//! The server's settings: the credentials of the sign-in provider, the address the server is
//! reached at from outside, and the port it listens on.
use vstd::prelude::*;
use vstd::string::StringExecFns;

verus! {

pub struct Config {
    pub client_id: String,
    pub client_secret: String,
    pub external_uri: String,
    pub port: u16,
}

impl Config {
    /// Where the sign-in provider sends the user back: `/redirect` under the external address.
    pub fn redirect_uri(&self) -> (r: String)
        ensures
            r@ == self.external_uri@ + seq!['/', 'r', 'e', 'd', 'i', 'r', 'e', 'c', 't'],
    {
        let mut uri = self.external_uri.clone();
        let path = "/redirect";
        proof {
            reveal_strlit("/redirect");
        }
        uri.append(path);
        uri
    }
}

} // verus!
